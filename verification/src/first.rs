//! The first-graph and left recursion.
//!
//! A node can match the empty string when it is *nullable*. The first-graph links a node to
//! every node that can be the first thing it matches: every branch of an alternation; each
//! item of a concatenation preceded only by nullable items; the body of a repetition that
//! allows a copy; the body of an optional; the body of the rule a reference resolves to. A
//! rule whose body can reach itself in this graph is left-recursive, which no recognizer of
//! this kind can terminate on, so `check` refuses it.
//!
//! A prose value is taken as not nullable, so it never opens a path through itself.
use vstd::prelude::*;

use crate::ast::{Node, NodeId, NumVal, RuleId};
use crate::check::{valid_target, CheckedGrammar};
use crate::error::CheckError;
use crate::language::{below, body_of, derives, derives_items, derives_rep, items_of, reaches, wit};
use crate::reach::{count_false, edge, visit};

verus! {

/// Whether node `k` matches the empty string, given which nodes `prev` says do.
pub open spec fn nullable_step(g: CheckedGrammar, prev: Seq<bool>, k: int) -> bool {
    match g.spec_nodes()[k] {
        Node::Alt { branches } => exists|i: int|
            0 <= i < branches@.len() && #[trigger] prev[branches@[i].spec_index() as int],
        Node::Concat { items } => forall|i: int|
            0 <= i < items@.len() ==> #[trigger] prev[items@[i].spec_index() as int],
        Node::Repeat { repeat, body, .. } => repeat.min == 0 || prev[body.spec_index() as int],
        Node::Optional { .. } => true,
        Node::RuleRef { .. } => match g.spec_resolved()[k] {
            Some(t) => valid_target(t, g.spec_user_rules()) && prev[g.spec_rule(t).body.spec_index() as int],
            None => false,
        },
        Node::CharVal(c) => c.value@.len() == 0,
        Node::NumVal { value: NumVal::Concat(values), .. } => values@.len() == 0,
        _ => false,
    }
}

/// One round of the nullability computation over the whole arena.
pub open spec fn nullable_round(g: CheckedGrammar, prev: Seq<bool>) -> Seq<bool> {
    Seq::new(g.spec_nodes().len(), |k: int| nullable_step(g, prev, k))
}

/// Which nodes are known nullable after `r` rounds, starting from none.
pub open spec fn nullable_after(g: CheckedGrammar, r: nat) -> Seq<bool>
    decreases r,
{
    if r == 0 {
        Seq::new(g.spec_nodes().len(), |k: int| false)
    } else {
        nullable_round(g, nullable_after(g, (r - 1) as nat))
    }
}

/// Which nodes are nullable: as many rounds as the arena has nodes, which reach the least
/// fixed point of the rounds ([`lemma_nullable_least_fixed_point`]).
pub open spec fn nullable_table(g: CheckedGrammar) -> Seq<bool> {
    nullable_after(g, g.spec_nodes().len())
}

/// Whether every node `a` marks, `b` marks too.
pub open spec fn within(a: Seq<bool>, b: Seq<bool>) -> bool {
    a.len() == b.len() && forall|k: int| 0 <= k < a.len() && #[trigger] a[k] ==> b[k]
}

/// Marking more nodes nullable never unmarks a node in the next round.
proof fn lemma_step_monotone(g: CheckedGrammar, a: Seq<bool>, b: Seq<bool>, k: int)
    requires
        g.wf(),
        0 <= k < g.spec_nodes().len(),
        a.len() == g.spec_nodes().len(),
        within(a, b),
        nullable_step(g, a, k),
    ensures
        nullable_step(g, b, k),
{
    assert(crate::check::node_ok(
        g.spec_nodes(),
        g.spec_resolved(),
        g.spec_names(),
        g.spec_user_rules(),
        g.spec_user_nodes(),
        k,
    ));
    match g.spec_nodes()[k] {
        Node::Alt { branches } => {
            let i = choose|i: int| 0 <= i < branches@.len() && #[trigger] a[branches@[i].spec_index() as int];
            assert(b[branches@[i].spec_index() as int]);
        },
        Node::Concat { items } => {
            assert forall|i: int| 0 <= i < items@.len() implies #[trigger] b[items@[i].spec_index() as int] by {
                assert(a[items@[i].spec_index() as int]);
            }
        },
        Node::RuleRef { .. } => {
            let t = g.spec_resolved()[k]->0;
            assert(g.spec_rules()[g.spec_rule_index(t)] == g.spec_rule(t));
        },
        _ => {},
    }
}

/// Each round marks every node the round before did.
proof fn lemma_rounds_grow(g: CheckedGrammar, r: nat)
    requires
        g.wf(),
    ensures
        within(nullable_after(g, r), nullable_after(g, r + 1)),
    decreases r,
{
    let a = nullable_after(g, r);
    let b = nullable_after(g, r + 1);
    if r > 0 {
        lemma_rounds_grow(g, (r - 1) as nat);
        assert forall|k: int| 0 <= k < a.len() && #[trigger] a[k] implies b[k] by {
            lemma_step_monotone(g, nullable_after(g, (r - 1) as nat), a, k);
        }
    }
}

/// A table that marks every node another marks, and more, has fewer unmarked nodes.
proof fn lemma_count_false_within(a: Seq<bool>, b: Seq<bool>)
    requires
        within(a, b),
    ensures
        count_false(b) <= count_false(a),
        a != b ==> count_false(b) < count_false(a),
    decreases a.len(),
{
    if a.len() > 0 {
        let a0 = a.subrange(0, a.len() - 1);
        let b0 = b.subrange(0, b.len() - 1);
        assert forall|k: int| 0 <= k < a0.len() && #[trigger] a0[k] implies b0[k] by {
            assert(a[k]);
        }
        lemma_count_false_within(a0, b0);
        if a != b {
            if a0 == b0 {
                assert(a[a.len() - 1] != b[b.len() - 1]) by {
                    if a[a.len() - 1] == b[b.len() - 1] {
                        assert(a =~= b) by {
                            assert forall|k: int| 0 <= k < a.len() implies a[k] == b[k] by {
                                if k < a.len() - 1 {
                                    assert(a0[k] == b0[k]);
                                }
                            }
                        }
                    }
                }
            }
        }
    } else {
        assert(a =~= b);
    }
}

/// The rounds settle within as many rounds as the arena has nodes: either they have settled
/// by round `r`, or at most `n - r` nodes are still unmarked.
proof fn lemma_rounds_settle(g: CheckedGrammar, r: nat)
    requires
        g.wf(),
        r <= g.spec_nodes().len(),
    ensures
        nullable_after(g, r) == nullable_after(g, r + 1) || count_false(nullable_after(g, r)) + r <= g.spec_nodes().len(),
    decreases r,
{
    let n = g.spec_nodes().len();
    if r == 0 {
        lemma_count_false_all(nullable_after(g, 0));
    } else {
        lemma_rounds_settle(g, (r - 1) as nat);
        let p = nullable_after(g, (r - 1) as nat);
        let c = nullable_after(g, r);
        if p == c {
            assert(nullable_after(g, r + 1) == nullable_round(g, c));
        } else {
            lemma_rounds_grow(g, (r - 1) as nat);
            lemma_count_false_within(p, c);
        }
    }
}

/// A table that marks nothing has every node unmarked.
proof fn lemma_count_false_all(a: Seq<bool>)
    requires
        forall|k: int| 0 <= k < a.len() ==> !#[trigger] a[k],
    ensures
        count_false(a) == a.len(),
    decreases a.len(),
{
    if a.len() > 0 {
        lemma_count_false_all(a.subrange(0, a.len() - 1));
    }
}

/// A table with no unmarked node marks every node.
proof fn lemma_count_false_none(a: Seq<bool>, k: int)
    requires
        count_false(a) == 0,
        0 <= k < a.len(),
    ensures
        a[k],
    decreases a.len(),
{
    let a0 = a.subrange(0, a.len() - 1);
    if k < a.len() - 1 {
        lemma_count_false_none(a0, k);
    }
}

/// The nullable table is the least fixed point of the rounds: a further round changes
/// nothing, and every table a round leaves unchanged marks every node it marks.
pub proof fn lemma_nullable_least_fixed_point(g: CheckedGrammar, x: Seq<bool>)
    requires
        g.wf(),
    ensures
        nullable_round(g, nullable_table(g)) == nullable_table(g),
        x.len() == g.spec_nodes().len() && nullable_round(g, x) == x ==> within(nullable_table(g), x),
{
    let n = g.spec_nodes().len();
    lemma_rounds_settle(g, n);
    let t = nullable_after(g, n);
    if t != nullable_after(g, n + 1) {
        lemma_rounds_grow(g, n);
        assert(t =~= nullable_after(g, n + 1)) by {
            assert forall|k: int| 0 <= k < n implies t[k] == nullable_after(g, n + 1)[k] by {
                lemma_count_false_none(t, k);
            }
        }
    }
    if x.len() == n && nullable_round(g, x) == x {
        lemma_fixed_point_above(g, x, n);
    }
}

/// Every table a round leaves unchanged marks every node the rounds mark.
proof fn lemma_fixed_point_above(g: CheckedGrammar, x: Seq<bool>, r: nat)
    requires
        g.wf(),
        x.len() == g.spec_nodes().len(),
        nullable_round(g, x) == x,
    ensures
        within(nullable_after(g, r), x),
    decreases r,
{
    if r > 0 {
        lemma_fixed_point_above(g, x, (r - 1) as nat);
        let a = nullable_after(g, r);
        assert forall|k: int| 0 <= k < a.len() && #[trigger] a[k] implies x[k] by {
            lemma_step_monotone(g, nullable_after(g, (r - 1) as nat), x, k);
            assert(nullable_round(g, x)[k] == x[k]);
        }
    }
}

/// A node marked in the nullable table reads exactly what the round says of it.
proof fn lemma_table_step(g: CheckedGrammar, k: int)
    requires
        g.wf(),
        0 <= k < g.spec_nodes().len(),
    ensures
        nullable_table(g)[k] == nullable_step(g, nullable_table(g), k),
        nullable_table(g).len() == g.spec_nodes().len(),
{
    lemma_nullable_least_fixed_point(g, nullable_table(g));
    assert(nullable_round(g, nullable_table(g))[k] == nullable_step(g, nullable_table(g), k));
}

/// A node that derives an empty stretch is marked in the nullable table.
proof fn lemma_empty_derivation_marked(g: CheckedGrammar, s: Seq<char>, n: int, i: int, h: nat)
    requires
        g.wf(),
        derives(g, s, n, i, i, h),
    ensures
        nullable_table(g)[n],
    decreases h, g.spec_nodes().len() - n, 1nat, 0nat,
{
    let t = nullable_table(g);
    lemma_table_step(g, n);
    assert(crate::check::node_ok(
        g.spec_nodes(),
        g.spec_resolved(),
        g.spec_names(),
        g.spec_user_rules(),
        g.spec_user_nodes(),
        n,
    ));
    match g.spec_nodes()[n] {
        Node::Alt { branches } => {
            let b = choose|b: int|
                #[trigger] wit(b) && 0 <= b < branches@.len() && below(g, n, branches@[b].spec_index() as int)
                    && derives(g, s, branches@[b].spec_index() as int, i, i, h);
            lemma_empty_derivation_marked(g, s, branches@[b].spec_index() as int, i, h);
            assert(t[branches@[b].spec_index() as int]);
        },
        Node::Concat { items } => {
            lemma_empty_items_marked(g, s, n, items@.len() as int, i, h);
            assert forall|q: int| 0 <= q < items@.len() implies #[trigger] t[items@[q].spec_index() as int] by {
                assert(items_of(g, n)[q] == items@[q]);
            }
        },
        Node::Repeat { repeat, body, .. } => {
            let c = choose|c: nat|
                #[trigger] wit(c as int) && repeat.min <= c && (repeat.max matches Some(m) ==> c <= m)
                    && derives_rep(g, s, n, c, i, i, h);
            if c > 0 {
                lemma_empty_copies_marked(g, s, n, c, i, h);
            }
        },
        Node::RuleRef { .. } => {
            let tg = g.spec_resolved()[n]->Some_0;
            lemma_empty_derivation_marked(g, s, g.spec_rule(tg).body.spec_index() as int, i, (h - 1) as nat);
        },
        Node::NumVal { value, .. } => {
            match value {
                NumVal::Concat(values) => {},
                _ => {},
            }
        },
        _ => {},
    }
}

/// Every item of a concatenation prefix that derives an empty stretch is marked nullable.
proof fn lemma_empty_items_marked(g: CheckedGrammar, s: Seq<char>, n: int, k: int, i: int, h: nat)
    requires
        g.wf(),
        derives_items(g, s, n, k, i, i, h),
    ensures
        forall|q: int| 0 <= q < k ==> #[trigger] nullable_table(g)[items_of(g, n)[q].spec_index() as int],
    decreases h, g.spec_nodes().len() - n, 0nat, k,
{
    if k > 0 {
        let item = items_of(g, n)[k - 1].spec_index() as int;
        let m = choose|m: int|
            #[trigger] wit(m) && i <= m <= i && derives_items(g, s, n, k - 1, i, m, h) && derives(g, s, item, m, i, h);
        lemma_empty_items_marked(g, s, n, k - 1, i, h);
        lemma_empty_derivation_marked(g, s, item, i, h);
    }
}

/// The body of a repetition whose copies derive an empty stretch is marked nullable.
proof fn lemma_empty_copies_marked(g: CheckedGrammar, s: Seq<char>, n: int, c: nat, i: int, h: nat)
    requires
        g.wf(),
        c > 0,
        derives_rep(g, s, n, c, i, i, h),
    ensures
        nullable_table(g)[body_of(g, n)],
    decreases h, g.spec_nodes().len() - n, 0nat, c,
{
    let m = choose|m: int|
        #[trigger] wit(m) && i <= m <= i && derives_rep(g, s, n, (c - 1) as nat, i, m, h) && derives(
            g,
            s,
            body_of(g, n),
            m,
            i,
            h,
        );
    lemma_empty_derivation_marked(g, s, body_of(g, n), i, h);
}

/// Copies of a body that derives an empty stretch derive it too, however many.
proof fn lemma_empty_copies(g: CheckedGrammar, s: Seq<char>, n: int, c: nat, i: int, h: nat)
    requires
        0 <= n < g.spec_nodes().len(),
        below(g, n, body_of(g, n)),
        derives(g, s, body_of(g, n), i, i, h),
    ensures
        derives_rep(g, s, n, c, i, i, h),
    decreases c,
{
    if c > 0 {
        lemma_empty_copies(g, s, n, (c - 1) as nat, i, h);
        assert(wit(i));
    }
}

/// Items of a concatenation that are all marked by round `r` derive an empty stretch together.
proof fn lemma_marked_items_derive(g: CheckedGrammar, s: Seq<char>, r: nat, n: int, k: int, i: int)
    requires
        g.wf(),
        r > 0,
        0 <= n < g.spec_nodes().len(),
        g.spec_nodes()[n] is Concat,
        0 <= k <= items_of(g, n).len(),
        0 <= i <= s.len(),
        forall|q: int| 0 <= q < k ==> #[trigger] nullable_after(g, (r - 1) as nat)[items_of(g, n)[q].spec_index() as int],
    ensures
        exists|h: nat| #[trigger] derives_items(g, s, n, k, i, i, h),
    decreases r, 0int, k,
{
    crate::language::lemma_children_below(g, n);
    if k == 0 {
        assert(derives_items(g, s, n, 0, i, i, 0));
    } else {
        let item = items_of(g, n)[k - 1].spec_index() as int;
        lemma_marked_items_derive(g, s, r, n, k - 1, i);
        let h1 = choose|h: nat| #[trigger] derives_items(g, s, n, k - 1, i, i, h);
        assert(nullable_after(g, (r - 1) as nat)[item]);
        assert(below(g, n, item));
        lemma_marked_derives(g, s, (r - 1) as nat, item, i);
        let h2 = choose|h: nat| #[trigger] derives(g, s, item, i, i, h);
        let hm: nat = if h1 <= h2 { h2 } else { h1 };
        crate::language::lemma_items_mono(g, s, n, k - 1, i, i, h1, hm);
        crate::language::lemma_derives_mono(g, s, item, i, i, h2, hm);
        assert(wit(i));
        assert(derives_items(g, s, n, k, i, i, hm));
    }
}

/// A node marked after `r` rounds derives the empty stretch at every position of the input.
proof fn lemma_marked_derives(g: CheckedGrammar, s: Seq<char>, r: nat, n: int, i: int)
    requires
        g.wf(),
        0 <= n < g.spec_nodes().len(),
        0 <= i <= s.len(),
        nullable_after(g, r)[n],
    ensures
        exists|h: nat| #[trigger] derives(g, s, n, i, i, h),
    decreases r, 1int, 0int,
{
    assert(crate::check::node_ok(
        g.spec_nodes(),
        g.spec_resolved(),
        g.spec_names(),
        g.spec_user_rules(),
        g.spec_user_nodes(),
        n,
    ));
    crate::language::lemma_children_below(g, n);
    if r == 0 {
        assert(!nullable_after(g, 0)[n]);
    } else {
        let prev = nullable_after(g, (r - 1) as nat);
        assert(nullable_step(g, prev, n));
        match g.spec_nodes()[n] {
            Node::Alt { branches } => {
                let b = choose|b: int| 0 <= b < branches@.len() && #[trigger] prev[branches@[b].spec_index() as int];
                let c = branches@[b].spec_index() as int;
                assert(below(g, n, c));
                lemma_marked_derives(g, s, (r - 1) as nat, c, i);
                let h = choose|h: nat| #[trigger] derives(g, s, c, i, i, h);
                assert(wit(b));
                assert(derives(g, s, n, i, i, h));
            },
            Node::Concat { items } => {
                assert forall|q: int| 0 <= q < items@.len() implies #[trigger] prev[items_of(g, n)[q].spec_index() as int] by {
                    assert(items_of(g, n)[q] == items@[q]);
                    assert(prev[items@[q].spec_index() as int]);
                }
                lemma_marked_items_derive(g, s, r, n, items@.len() as int, i);
                let h = choose|h: nat| #[trigger] derives_items(g, s, n, items@.len() as int, i, i, h);
                assert(derives(g, s, n, i, i, h));
            },
            Node::Repeat { repeat, body, .. } => {
                if repeat.min == 0 {
                    assert(derives_rep(g, s, n, 0, i, i, 0));
                    assert(wit(0));
                    assert(derives(g, s, n, i, i, 0));
                } else {
                    let c = body.spec_index() as int;
                    lemma_marked_derives(g, s, (r - 1) as nat, c, i);
                    let h = choose|h: nat| #[trigger] derives(g, s, c, i, i, h);
                    lemma_empty_copies(g, s, n, repeat.min as nat, i, h);
                    assert(wit(repeat.min as int));
                    assert(derives(g, s, n, i, i, h));
                }
            },
            Node::Optional { .. } => {
                assert(derives(g, s, n, i, i, 0));
            },
            Node::RuleRef { .. } => {
                let tg = g.spec_resolved()[n]->Some_0;
                let c = g.spec_rule(tg).body.spec_index() as int;
                assert(0 <= g.spec_rule_index(tg) < g.spec_rules().len());
                assert(g.spec_rules()[g.spec_rule_index(tg)] == g.spec_rule(tg));
                lemma_marked_derives(g, s, (r - 1) as nat, c, i);
                let h = choose|h: nat| #[trigger] derives(g, s, c, i, i, h);
                assert(derives(g, s, n, i, i, h + 1));
            },
            Node::CharVal(cv) => {
                assert(derives(g, s, n, i, i, 0));
            },
            Node::NumVal { value, .. } => {
                assert(derives(g, s, n, i, i, 0));
            },
            _ => {},
        }
    }
}

/// A node is nullable exactly when it derives the empty string: at any position of any
/// input, some derivation of it reads nothing there. In particular a reference to a rule is
/// nullable exactly when the rule's body matches the empty string.
pub proof fn lemma_nullable_iff_matches_empty(g: CheckedGrammar, s: Seq<char>, n: int, i: int)
    requires
        g.wf(),
        0 <= n < g.spec_nodes().len(),
        0 <= i <= s.len(),
    ensures
        nullable_table(g)[n] <==> reaches(g, s, n, i, i),
{
    if nullable_table(g)[n] {
        lemma_marked_derives(g, s, g.spec_nodes().len(), n, i);
    }
    if reaches(g, s, n, i, i) {
        let h = choose|h: nat| #[trigger] derives(g, s, n, i, i, h);
        lemma_empty_derivation_marked(g, s, n, i, h);
    }
}

/// Whether node `b` can be the first thing node `a` matches, given the nullable table `nl`.
pub open spec fn first_edge(g: CheckedGrammar, nl: Seq<bool>, a: int, b: int) -> bool {
    &&& 0 <= a < g.spec_nodes().len()
    &&& match g.spec_nodes()[a] {
        Node::Concat { items } => exists|i: int|
            0 <= i < items@.len() && (#[trigger] items@[i]).spec_index() == b && forall|j: int|
                0 <= j < i ==> nl[items@[j].spec_index() as int],
        _ => edge(g, a, b),
    }
}

/// Whether `b` is reachable from `a` in exactly `n` first-graph edges.
pub open spec fn first_reach_in(g: CheckedGrammar, nl: Seq<bool>, a: int, b: int, n: nat) -> bool
    decreases n,
{
    if n == 0 {
        a == b
    } else {
        exists|c: int| first_reach_in(g, nl, a, c, (n - 1) as nat) && #[trigger] first_edge(g, nl, c, b)
    }
}

/// Whether `b` is reachable from `a` in the first-graph.
pub open spec fn first_reach(g: CheckedGrammar, nl: Seq<bool>, a: int, b: int) -> bool {
    exists|n: nat| #[trigger] first_reach_in(g, nl, a, b, n)
}

/// The body of rule `i` of the table.
pub open spec fn body_of_rule(g: CheckedGrammar, i: int) -> int {
    g.spec_rules()[i].body.spec_index() as int
}

/// Whether the body of rule `i` lies on a cycle of the first-graph.
pub open spec fn on_cycle(g: CheckedGrammar, nl: Seq<bool>, i: int) -> bool {
    exists|k: int|
        #![trigger first_edge(g, nl, k, body_of_rule(g, i))]
        first_reach(g, nl, body_of_rule(g, i), k) && first_edge(g, nl, k, body_of_rule(g, i))
}

/// Whether rules `i` and `j` each reach the other in the first-graph.
pub open spec fn same_cycle(g: CheckedGrammar, nl: Seq<bool>, i: int, j: int) -> bool {
    first_reach(g, nl, body_of_rule(g, i), body_of_rule(g, j)) && first_reach(
        g,
        nl,
        body_of_rule(g, j),
        body_of_rule(g, i),
    )
}

/// Whether the grammar is left-recursive: some rule's body lies on a first-graph cycle.
pub open spec fn left_recursive(g: CheckedGrammar) -> bool {
    exists|i: int| 0 <= i < g.spec_rules().len() && #[trigger] on_cycle(g, nullable_table(g), i)
}

/// Whether rule `i` is the one a cycle is reported for: it lies on a cycle, and no earlier
/// rule is on the same one.
pub open spec fn reported(g: CheckedGrammar, nl: Seq<bool>, i: int) -> bool {
    &&& on_cycle(g, nl, i)
    &&& forall|j: int| 0 <= j < i ==> !#[trigger] same_cycle(g, nl, i, j)
}

/// The names of the rules among the first `n` of the table that share rule `i`'s cycle, in
/// table order.
pub open spec fn cycle_names(g: CheckedGrammar, nl: Seq<bool>, i: int, n: int) -> Seq<Seq<char>>
    decreases n,
{
    if n <= 0 {
        Seq::empty()
    } else if same_cycle(g, nl, i, n - 1) {
        cycle_names(g, nl, i, n - 1).push(g.spec_rules()[n - 1].name@)
    } else {
        cycle_names(g, nl, i, n - 1)
    }
}

/// The cycles reported for the first `n` rules of the table: one per cycle, at its first
/// rule, listing every rule on it in table order.
pub open spec fn cycles_upto(g: CheckedGrammar, nl: Seq<bool>, n: int) -> Seq<Seq<Seq<char>>>
    decreases n,
{
    if n <= 0 {
        Seq::empty()
    } else if reported(g, nl, n - 1) {
        cycles_upto(g, nl, n - 1).push(cycle_names(g, nl, n - 1, g.spec_rules().len() as int))
    } else {
        cycles_upto(g, nl, n - 1)
    }
}

/// Every cycle of the grammar's first-graph, as reported.
pub open spec fn left_cycles(g: CheckedGrammar) -> Seq<Seq<Seq<char>>> {
    cycles_upto(g, nullable_table(g), g.spec_rules().len() as int)
}

/// The names held by a list of strings.
pub open spec fn names_view(v: Seq<String>) -> Seq<Seq<char>> {
    v.map_values(|s: String| s@)
}

/// Whether `errors` reports exactly the cycles `cycles`, in order.
pub open spec fn reports_cycles(errors: Seq<CheckError>, cycles: Seq<Seq<Seq<char>>>) -> bool {
    &&& errors.len() == cycles.len()
    &&& forall|t: int|
        0 <= t < errors.len() ==> (#[trigger] errors[t] matches CheckError::LeftRecursion { cycle }
            && names_view(cycle@) == cycles[t])
}

pub proof fn lemma_first_reach_refl(g: CheckedGrammar, nl: Seq<bool>, a: int)
    ensures
        first_reach(g, nl, a, a),
{
    assert(first_reach_in(g, nl, a, a, 0));
}

pub proof fn lemma_first_reach_step(g: CheckedGrammar, nl: Seq<bool>, a: int, c: int, b: int)
    requires
        first_reach(g, nl, a, c),
        first_edge(g, nl, c, b),
    ensures
        first_reach(g, nl, a, b),
{
    let n = choose|n: nat| #[trigger] first_reach_in(g, nl, a, c, n);
    assert(first_reach_in(g, nl, a, b, n + 1));
}

/// Two paths joined end to end.
pub proof fn lemma_first_reach_join(g: CheckedGrammar, nl: Seq<bool>, a: int, b: int, c: int, m: nat, n: nat)
    requires
        first_reach_in(g, nl, a, b, m),
        first_reach_in(g, nl, b, c, n),
    ensures
        first_reach_in(g, nl, a, c, m + n),
    decreases n,
{
    if n > 0 {
        let d = choose|d: int| first_reach_in(g, nl, b, d, (n - 1) as nat) && #[trigger] first_edge(g, nl, d, c);
        lemma_first_reach_join(g, nl, a, b, d, m, (n - 1) as nat);
        assert(first_reach_in(g, nl, a, c, m + n));
    }
}

/// A set of nodes that holds `a` and is closed under first-graph edges holds everything `a`
/// reaches.
proof fn lemma_closed_holds_first_reach(g: CheckedGrammar, nl: Seq<bool>, seen: Seq<bool>, a: int, b: int, n: nat)
    requires
        0 <= a < seen.len(),
        seen[a],
        forall|k: int, c: int|
            0 <= k < seen.len() && seen[k] && #[trigger] first_edge(g, nl, k, c) ==> 0 <= c < seen.len()
                && seen[c],
        first_reach_in(g, nl, a, b, n),
    ensures
        0 <= b < seen.len() && seen[b],
    decreases n,
{
    if n > 0 {
        let c = choose|c: int| first_reach_in(g, nl, a, c, (n - 1) as nat) && #[trigger] first_edge(g, nl, c, b);
        lemma_closed_holds_first_reach(g, nl, seen, a, c, (n - 1) as nat);
    }
}

/// Every first-graph edge is an edge of the reachability graph, so it stays in the arena.
proof fn lemma_first_edge_in_arena(g: CheckedGrammar, nl: Seq<bool>, a: int, b: int)
    requires
        g.wf(),
        first_edge(g, nl, a, b),
    ensures
        0 <= b < g.spec_nodes().len(),
{
    if let Node::Concat { items } = g.spec_nodes()[a] {
        let i = choose|i: int|
            0 <= i < items@.len() && (#[trigger] items@[i]).spec_index() == b && forall|j: int|
                0 <= j < i ==> nl[items@[j].spec_index() as int];
        assert(edge(g, a, b));
    }
    g.lemma_edge_in_arena(a, b);
}

/// A rule in the same cycle as a rule on a cycle is on a cycle itself.
proof fn lemma_same_cycle_on_cycle(g: CheckedGrammar, nl: Seq<bool>, i: int, j: int)
    requires
        on_cycle(g, nl, i),
        same_cycle(g, nl, i, j),
    ensures
        on_cycle(g, nl, j),
{
    let bi = body_of_rule(g, i);
    let bj = body_of_rule(g, j);
    let k = choose|k: int|
        #![trigger first_edge(g, nl, k, bi)]
        first_reach(g, nl, bi, k) && first_edge(g, nl, k, bi);
    let m1 = choose|m: nat| #[trigger] first_reach_in(g, nl, bj, bi, m);
    let m2 = choose|m: nat| #[trigger] first_reach_in(g, nl, bi, k, m);
    let m3 = choose|m: nat| #[trigger] first_reach_in(g, nl, bi, bj, m);
    lemma_first_reach_join(g, nl, bj, bi, k, m1, m2);
    assert(first_reach_in(g, nl, bj, bi, m1 + m2 + 1));
    lemma_first_reach_join(g, nl, bj, bi, bj, m1 + m2 + 1, m3);
    let total = (m1 + m2 + 1 + m3) as nat;
    let c = choose|c: int| first_reach_in(g, nl, bj, c, (total - 1) as nat) && #[trigger] first_edge(g, nl, c, bj);
    assert(first_reach(g, nl, bj, c));
}

/// `same_cycle` is symmetric and transitive.
proof fn lemma_same_cycle_trans(g: CheckedGrammar, nl: Seq<bool>, i: int, j: int, k: int)
    requires
        same_cycle(g, nl, i, j),
        same_cycle(g, nl, j, k),
    ensures
        same_cycle(g, nl, i, k),
        same_cycle(g, nl, k, i),
{
    let bi = body_of_rule(g, i);
    let bj = body_of_rule(g, j);
    let bk = body_of_rule(g, k);
    let a = choose|m: nat| #[trigger] first_reach_in(g, nl, bi, bj, m);
    let b = choose|m: nat| #[trigger] first_reach_in(g, nl, bj, bk, m);
    let c = choose|m: nat| #[trigger] first_reach_in(g, nl, bk, bj, m);
    let d = choose|m: nat| #[trigger] first_reach_in(g, nl, bj, bi, m);
    lemma_first_reach_join(g, nl, bi, bj, bk, a, b);
    lemma_first_reach_join(g, nl, bk, bj, bi, c, d);
}

/// A rule on a cycle has a rule at or before it that the cycle is reported for.
proof fn lemma_cycle_reported(g: CheckedGrammar, nl: Seq<bool>, i: int)
    requires
        0 <= i,
        on_cycle(g, nl, i),
    ensures
        exists|j: int| 0 <= j <= i && #[trigger] reported(g, nl, j) && same_cycle(g, nl, i, j),
    decreases i,
{
    lemma_first_reach_refl(g, nl, body_of_rule(g, i));
    if reported(g, nl, i) {
        assert(same_cycle(g, nl, i, i));
    } else {
        let j = choose|j: int| 0 <= j < i && #[trigger] same_cycle(g, nl, i, j);
        lemma_same_cycle_on_cycle(g, nl, i, j);
        lemma_cycle_reported(g, nl, j);
        let k = choose|k: int| 0 <= k <= j && #[trigger] reported(g, nl, k) && same_cycle(g, nl, j, k);
        lemma_same_cycle_trans(g, nl, i, j, k);
    }
}

/// Cycles are reported for the first `n` rules exactly when one of them is reported.
proof fn lemma_cycles_upto_len(g: CheckedGrammar, nl: Seq<bool>, n: int)
    requires
        0 <= n,
    ensures
        cycles_upto(g, nl, n).len() == 0 <==> forall|j: int| 0 <= j < n ==> !#[trigger] reported(g, nl, j),
    decreases n,
{
    if n > 0 {
        lemma_cycles_upto_len(g, nl, n - 1);
    }
}

/// A grammar is left-recursive exactly when some cycle is reported for it.
pub proof fn lemma_left_recursive_reported(g: CheckedGrammar)
    ensures
        left_recursive(g) <==> left_cycles(g).len() > 0,
{
    let nl = nullable_table(g);
    let n = g.spec_rules().len() as int;
    lemma_cycles_upto_len(g, nl, n);
    if left_recursive(g) {
        let i = choose|i: int| 0 <= i < n && #[trigger] on_cycle(g, nl, i);
        lemma_cycle_reported(g, nl, i);
        let j = choose|j: int| 0 <= j <= i && #[trigger] reported(g, nl, j) && same_cycle(g, nl, i, j);
    }
    if left_cycles(g).len() > 0 {
        let j = choose|j: int| 0 <= j < n && #[trigger] reported(g, nl, j);
        assert(on_cycle(g, nl, j));
    }
}

impl CheckedGrammar {
    /// Every node reachable from `from` in the first-graph, as a membership table over the arena.
    fn first_reachable(&self, from: NodeId, nl: &Vec<bool>) -> (seen: Vec<bool>)
        requires
            from.spec_index() < self.spec_nodes().len(),
            nl@.len() == self.spec_nodes().len(),
        ensures
            seen@.len() == self.spec_nodes().len(),
            forall|k: int| 0 <= k < seen@.len() ==> (seen@[k] <==> first_reach(*self, nl@, from.spec_index() as int, k)),
    {
        proof {
            use_type_invariant(self);
        }
        let ghost g = *self;
        let ghost s = from.spec_index() as int;
        let n = self.node_count();
        let mut seen: Vec<bool> = Vec::new();
        let mut i: usize = 0;
        while i < n
            invariant
                i <= n,
                n == g.spec_nodes().len(),
                seen@.len() == i,
                forall|k: int| 0 <= k < i ==> !seen@[k],
            decreases n - i,
        {
            seen.push(false);
            i = i + 1;
        }
        let mut stack: Vec<usize> = Vec::new();
        let start = from.index();
        proof {
            lemma_first_reach_refl(g, nl@, s);
        }
        visit(&mut seen, &mut stack, start);
        proof {
            assert(stack@[0] == start);
            assert(stack@.contains(start));
            assert forall|k: int| 0 <= k < n && #[trigger] seen@[k] implies k == s by {}
        }
        while stack.len() > 0
            invariant
                g == *self,
                g.wf(),
                nl@.len() == n,
                n == g.spec_nodes().len(),
                seen@.len() == n,
                s == from.spec_index(),
                0 <= s < n,
                seen@[s],
                forall|j: int| 0 <= j < stack@.len() ==> (#[trigger] stack@[j]) < n && seen@[stack@[j] as int],
                forall|k: int| 0 <= k < n && #[trigger] seen@[k] ==> first_reach(g, nl@, s, k),
                forall|k: int, c: int|
                    0 <= k < n && seen@[k] && !stack@.contains(k as usize) && #[trigger] first_edge(g, nl@, k, c)
                        ==> 0 <= c < n && seen@[c],
            decreases 2 * count_false(seen@) + stack@.len(),
        {
            let ghost m0 = 2 * count_false(seen@) + stack@.len();
            let ghost whole = stack@;
            let k = stack.pop().unwrap();
            let ghost rest = stack@;
            let ghost kk = k as int;
            proof {
                assert(whole[whole.len() - 1] == k);
                assert forall|x: usize| #[trigger] whole.contains(x) implies rest.contains(x) || x == k by {
                    let j = choose|j: int| 0 <= j < whole.len() && whole[j] == x;
                    if j < whole.len() - 1 {
                        assert(rest[j] == x);
                    }
                }
            }
            let succ = self.first_successors(k, nl);
            let mut b: usize = 0;
            while b < succ.len()
                invariant
                    g == *self,
                    g.wf(),
                nl@.len() == n,
                    n == g.spec_nodes().len(),
                    seen@.len() == n,
                    0 <= kk < n,
                    0 <= s < n,
                    seen@[kk],
                    seen@[s],
                    forall|c: int| first_edge(g, nl@, kk, c) <==> exists|j: int| 0 <= j < succ@.len() && #[trigger] succ@[j] == c,
                    forall|j: int| 0 <= j < succ@.len() ==> (#[trigger] succ@[j]) < n,
                    b <= succ@.len(),
                    forall|x: usize| rest.contains(x) ==> #[trigger] stack@.contains(x),
                    forall|x: usize| #[trigger] whole.contains(x) ==> rest.contains(x) || x == k,
                    forall|j: int| 0 <= j < stack@.len() ==> (#[trigger] stack@[j]) < n && seen@[stack@[j] as int],
                    forall|q: int| 0 <= q < n && #[trigger] seen@[q] ==> first_reach(g, nl@, s, q),
                    forall|q: int, c: int|
                        0 <= q < n && seen@[q] && !stack@.contains(q as usize) && q != kk && #[trigger] first_edge(g, nl@, q, c)
                            ==> 0 <= c < n && seen@[c],
                    forall|j: int| 0 <= j < b ==> seen@[(#[trigger] succ@[j]) as int],
                    2 * count_false(seen@) + stack@.len() < m0,
                decreases succ.len() - b,
            {
                let c = succ[b];
                proof {
                    assert(first_edge(g, nl@, kk, c as int));
                    lemma_first_reach_step(g, nl@, s, kk, c as int);
                }
                let ghost before_seen = seen@;
                let ghost before_stack = stack@;
                visit(&mut seen, &mut stack, c);
                proof {
                    assert forall|q: int, d: int|
                        0 <= q < n && seen@[q] && !stack@.contains(q as usize) && q != kk && #[trigger] first_edge(g, nl@, q, d)
                            implies 0 <= d < n && seen@[d] by {
                        if q != c as int {
                            assert(before_seen[q]);
                            assert(!before_stack.contains(q as usize));
                        } else if !before_seen[q] {
                            assert(stack@[stack@.len() - 1] == c);
                            assert(stack@.contains(c));
                        }
                    }
                }
                b = b + 1;
            }
            proof {
                assert forall|q: int, c: int|
                    0 <= q < n && seen@[q] && !stack@.contains(q as usize) && #[trigger] first_edge(g, nl@, q, c)
                        implies 0 <= c < n && seen@[c] by {
                    lemma_first_edge_in_arena(g, nl@, q, c);
                    if q == kk {
                        let j = choose|j: int| 0 <= j < succ@.len() && #[trigger] succ@[j] == c;
                    }
                }
            }
        }
        proof {
            assert forall|k: int| 0 <= k < seen@.len() implies (seen@[k] <==> first_reach(g, nl@, s, k)) by {
                if first_reach(g, nl@, s, k) {
                    let m = choose|m: nat| #[trigger] first_reach_in(g, nl@, s, k, m);
                    assert forall|q: int, c: int|
                        0 <= q < seen@.len() && seen@[q] && #[trigger] first_edge(g, nl@, q, c) implies 0 <= c < seen@.len()
                            && seen@[c] by {
                        assert(!stack@.contains(q as usize));
                    }
                    lemma_closed_holds_first_reach(g, nl@, seen@, s, k, m);
                }
            }
        }
        seen
    }

    /// Whether node `k` matches the empty string, given which nodes `prev` says do.
    fn node_nullable(&self, k: usize, prev: &Vec<bool>) -> (b: bool)
        requires
            k < self.spec_nodes().len(),
            prev@.len() == self.spec_nodes().len(),
        ensures
            b == nullable_step(*self, prev@, k as int),
    {
        proof {
            use_type_invariant(self);
            assert(crate::check::node_ok(
                self.spec_nodes(),
                self.spec_resolved(),
                self.spec_names(),
                self.spec_user_rules(),
                self.spec_user_nodes(),
                k as int,
            ));
        }
        let id = NodeId::from_index(k as u32);
        match self.node(id) {
            Node::Alt { branches } => {
                let mut i: usize = 0;
                while i < branches.len()
                    invariant
                        i <= branches@.len(),
                        prev@.len() == self.spec_nodes().len(),
                        forall|q: int| 0 <= q < branches@.len() ==> (#[trigger] branches@[q]).spec_index() < prev@.len(),
                        forall|q: int| 0 <= q < i ==> !#[trigger] prev@[branches@[q].spec_index() as int],
                        self.spec_nodes()[k as int] == (Node::Alt { branches: *branches }),
                        k < self.spec_nodes().len(),
                    decreases branches.len() - i,
                {
                    if prev[branches[i].index()] {
                        proof {
                            assert(prev@[branches@[i as int].spec_index() as int]);
                            let kk = k as int;
                            let g = *self;
                            assert(g.spec_nodes()[kk] == (Node::Alt { branches: *branches }));
                            assert(g.spec_nodes()[kk] is Alt);
                            assert(g.spec_nodes()[kk]->Alt_branches == *branches);
                            assert(exists|q: int|
                                0 <= q < branches@.len() && #[trigger] prev@[branches@[q].spec_index() as int]);
                        }
                        return true;
                    }
                    i = i + 1;
                }
                false
            },
            Node::Concat { items } => {
                let mut i: usize = 0;
                while i < items.len()
                    invariant
                        i <= items@.len(),
                        prev@.len() == self.spec_nodes().len(),
                        forall|q: int| 0 <= q < items@.len() ==> (#[trigger] items@[q]).spec_index() < prev@.len(),
                        forall|q: int| 0 <= q < i ==> #[trigger] prev@[items@[q].spec_index() as int],
                        self.spec_nodes()[k as int] == (Node::Concat { items: *items }),
                        k < self.spec_nodes().len(),
                    decreases items.len() - i,
                {
                    if !prev[items[i].index()] {
                        proof {
                            assert(!prev@[items@[i as int].spec_index() as int]);
                            let kk = k as int;
                            let g = *self;
                            assert(g.spec_nodes()[kk] == (Node::Concat { items: *items }));
                            assert(g.spec_nodes()[kk] is Concat);
                            assert(g.spec_nodes()[kk]->Concat_items == *items);
                        }
                        return false;
                    }
                    i = i + 1;
                }
                true
            },
            Node::Repeat { repeat, body, .. } => {
                let r = repeat.min == 0 || prev[body.index()];
                proof {
                    assert(r == nullable_step(*self, prev@, k as int));
                }
                r
            },
            Node::Optional { .. } => true,
            Node::RuleRef { .. } => match self.target(id) {
                Some(t) => {
                    let c = self.rule_by_id(t).body.index();
                    proof {
                        assert(self.spec_rules()[self.spec_rule_index(t)] == self.spec_rule(t));
                    }
                    let r = prev[c];
                    proof {
                        assert(r == nullable_step(*self, prev@, k as int));
                    }
                    r
                },
                None => false,
            },
            Node::CharVal(c) => {
                let l = c.value.as_str().unicode_len();
                proof {
                    assert((l == 0) == nullable_step(*self, prev@, k as int));
                }
                l == 0
            },
            Node::NumVal { value: NumVal::Concat(values), .. } => values.len() == 0,
            _ => false,
        }
    }

    /// Which nodes of the arena match the empty string.
    fn nullable_nodes(&self) -> (nl: Vec<bool>)
        ensures
            nl@ == nullable_table(*self),
    {
        let n = self.node_count();
        let mut cur: Vec<bool> = Vec::new();
        let mut k: usize = 0;
        while k < n
            invariant
                k <= n,
                n == self.spec_nodes().len(),
                cur@.len() == k,
                forall|q: int| 0 <= q < k ==> !#[trigger] cur@[q],
            decreases n - k,
        {
            cur.push(false);
            k = k + 1;
        }
        proof {
            assert(cur@ =~= nullable_after(*self, 0));
        }
        let mut r: usize = 0;
        while r < n
            invariant
                r <= n,
                n == self.spec_nodes().len(),
                cur@ == nullable_after(*self, r as nat),
                cur@.len() == n,
            decreases n - r,
        {
            let mut next: Vec<bool> = Vec::new();
            let mut k: usize = 0;
            while k < n
                invariant
                    k <= n,
                    n == self.spec_nodes().len(),
                    cur@.len() == n,
                    next@.len() == k,
                    forall|q: int| 0 <= q < k ==> #[trigger] next@[q] == nullable_step(*self, cur@, q),
                decreases n - k,
            {
                let b = self.node_nullable(k, &cur);
                next.push(b);
                k = k + 1;
            }
            proof {
                assert(next@ =~= nullable_round(*self, cur@));
            }
            cur = next;
            r = r + 1;
        }
        cur
    }

    /// The direct successors of node `k` in the first-graph.
    fn first_successors(&self, k: usize, nl: &Vec<bool>) -> (v: Vec<usize>)
        requires
            k < self.spec_nodes().len(),
            nl@.len() == self.spec_nodes().len(),
        ensures
            forall|c: int| first_edge(*self, nl@, k as int, c) <==> exists|j: int| 0 <= j < v@.len() && #[trigger] v@[j] == c,
            forall|j: int| 0 <= j < v@.len() ==> (#[trigger] v@[j]) < self.spec_nodes().len(),
    {
        proof {
            use_type_invariant(self);
            assert(crate::check::node_ok(
                self.spec_nodes(),
                self.spec_resolved(),
                self.spec_names(),
                self.spec_user_rules(),
                self.spec_user_nodes(),
                k as int,
            ));
        }
        let ghost kk = k as int;
        match self.node(NodeId::from_index(k as u32)) {
            Node::Concat { items } => {
                let mut v: Vec<usize> = Vec::new();
                let mut i: usize = 0;
                let mut open = true;
                while i < items.len() && open
                    invariant
                        i <= items@.len(),
                        nl@.len() == self.spec_nodes().len(),
                        self.spec_nodes()[kk] == (Node::Concat { items: *items }),
                        forall|q: int| 0 <= q < items@.len() ==> (#[trigger] items@[q]).spec_index() < nl@.len(),
                        v@.len() == i,
                        forall|j: int| 0 <= j < i ==> #[trigger] v@[j] == items@[j].spec_index(),
                        forall|j: int| 0 <= j < i - 1 ==> nl@[#[trigger] items@[j].spec_index() as int],
                        !open ==> i > 0 && !nl@[items@[i - 1].spec_index() as int],
                        open ==> forall|j: int| 0 <= j < i ==> nl@[#[trigger] items@[j].spec_index() as int],
                    decreases items.len() - i,
                {
                    let c = items[i].index();
                    v.push(c);
                    if !nl[c] {
                        open = false;
                    }
                    i = i + 1;
                }
                proof {
                    assert forall|c: int| first_edge(*self, nl@, kk, c) <==> exists|j: int|
                        0 <= j < v@.len() && #[trigger] v@[j] == c by {
                        if first_edge(*self, nl@, kk, c) {
                            let q = choose|q: int|
                                0 <= q < items@.len() && (#[trigger] items@[q]).spec_index() == c && forall|j: int|
                                    0 <= j < q ==> nl@[items@[j].spec_index() as int];
                            if q >= i {
                                assert(nl@[items@[i - 1].spec_index() as int]);
                            }
                            assert(v@[q] == c);
                        }
                        if exists|j: int| 0 <= j < v@.len() && #[trigger] v@[j] == c {
                            let j = choose|j: int| 0 <= j < v@.len() && #[trigger] v@[j] == c;
                            assert(forall|p: int| 0 <= p < j ==> nl@[#[trigger] items@[p].spec_index() as int]);
                            assert(items@[j].spec_index() == c);
                        }
                    }
                }
                v
            },
            _ => {
                let v = self.successors(k);
                proof {
                    assert forall|c: int| first_edge(*self, nl@, kk, c) <==> edge(*self, kk, c) by {}
                }
                v
            },
        }
    }

    /// One `LeftRecursion` error per cycle of the first-graph, at the cycle's first rule in
    /// table order, naming every rule on it in table order.
    pub fn left_recursion(&self) -> (errors: Vec<CheckError>)
        ensures
            reports_cycles(errors@, left_cycles(*self)),
            errors@.len() == 0 <==> !left_recursive(*self),
    {
        proof {
            use_type_invariant(self);
        }
        let ghost g = *self;
        let nl = self.nullable_nodes();
        let n = self.rule_count();
        let nodes = self.node_count();
        let mut tables: Vec<Vec<bool>> = Vec::new();
        let mut i: usize = 0;
        while i < n
            invariant
                g == *self,
                g.wf(),
                i <= n,
                n == g.spec_rules().len(),
                nodes == g.spec_nodes().len(),
                nl@ == nullable_table(g),
                nl@.len() == nodes,
                tables@.len() == i,
                forall|j: int| 0 <= j < i ==> (#[trigger] tables@[j])@.len() == nodes,
                forall|j: int, k: int|
                    0 <= j < i && 0 <= k < nodes ==> (#[trigger] tables@[j]@[k] <==> first_reach(g, nl@, body_of_rule(g, j), k)),
            decreases n - i,
        {
            let t = self.first_reachable(self.rule_at(i).body, &nl);
            tables.push(t);
            i = i + 1;
        }
        let mut errors: Vec<CheckError> = Vec::new();
        let mut i: usize = 0;
        while i < n
            invariant
                g == *self,
                g.wf(),
                i <= n,
                n == g.spec_rules().len(),
                nodes == g.spec_nodes().len(),
                nl@ == nullable_table(g),
                nl@.len() == nodes,
                tables@.len() == n,
                forall|j: int| 0 <= j < n ==> (#[trigger] tables@[j])@.len() == nodes,
                forall|j: int, k: int|
                    0 <= j < n && 0 <= k < nodes ==> (#[trigger] tables@[j]@[k] <==> first_reach(g, nl@, body_of_rule(g, j), k)),
                reports_cycles(errors@, cycles_upto(g, nl@, i as int)),
            decreases n - i,
        {
            let bi = self.rule_at(i).body.index();
            proof {
                assert(bi == body_of_rule(g, i as int));
            }
            let on = self.reaches_back(&tables[i], bi, &nl);
            proof {
                assert(tables@[i as int]@.len() == nodes);
                assert(on <==> on_cycle(g, nl@, i as int)) by {
                    if on {
                        let k = choose|k: int| 0 <= k < nodes && tables@[i as int]@[k] && #[trigger] first_edge(g, nl@, k, bi as int);
                        assert(first_reach(g, nl@, body_of_rule(g, i as int), k));
                    }
                    if on_cycle(g, nl@, i as int) {
                        let k = choose|k: int|
                            #![trigger first_edge(g, nl@, k, body_of_rule(g, i as int))]
                            first_reach(g, nl@, body_of_rule(g, i as int), k) && first_edge(g, nl@, k, body_of_rule(g, i as int));
                        lemma_first_edge_in_arena(g, nl@, k, bi as int);
                        assert(tables@[i as int]@[k]);
                    }
                }
            }
            let mut earlier = false;
            let mut j: usize = 0;
            while j < i
                invariant
                    g == *self,
                    g.wf(),
                    j <= i < n,
                    n == g.spec_rules().len(),
                    nodes == g.spec_nodes().len(),
                    tables@.len() == n,
                    forall|q: int| 0 <= q < n ==> (#[trigger] tables@[q])@.len() == nodes,
                    forall|q: int, k: int|
                        0 <= q < n && 0 <= k < nodes ==> (#[trigger] tables@[q]@[k] <==> first_reach(g, nl@, body_of_rule(g, q), k)),
                    earlier <==> exists|q: int| 0 <= q < j && #[trigger] same_cycle(g, nl@, i as int, q),
                    bi == body_of_rule(g, i as int),
                    bi < nodes,
                    reports_cycles(errors@, cycles_upto(g, nl@, i as int)),
                    on <==> on_cycle(g, nl@, i as int),
                decreases i - j,
            {
                let bj = self.rule_at(j).body.index();
                proof {
                    assert(bj == body_of_rule(g, j as int) && bj < nodes);
                }
                if tables[i][bj] && tables[j][bi] {
                    earlier = true;
                }
                proof {
                    assert(tables@[i as int]@[bj as int] <==> first_reach(g, nl@, body_of_rule(g, i as int), bj as int));
                    assert(tables@[j as int]@[bi as int] <==> first_reach(g, nl@, body_of_rule(g, j as int), bi as int));
                    if exists|q: int| 0 <= q < j + 1 && #[trigger] same_cycle(g, nl@, i as int, q) {
                        let q = choose|q: int| 0 <= q < j + 1 && #[trigger] same_cycle(g, nl@, i as int, q);
                        if q < j {
                        }
                    }
                    if same_cycle(g, nl@, i as int, j as int) {
                        assert(exists|q: int| 0 <= q < j + 1 && #[trigger] same_cycle(g, nl@, i as int, q));
                    }
                }
                j = j + 1;
            }
            if on && !earlier {
                proof {
                    assert(reported(g, nl@, i as int));
                }
                let mut cycle: Vec<String> = Vec::new();
                let mut j: usize = 0;
                while j < n
                    invariant
                        g == *self,
                        g.wf(),
                        i < n,
                        j <= n,
                        n == g.spec_rules().len(),
                        nodes == g.spec_nodes().len(),
                        tables@.len() == n,
                        forall|q: int| 0 <= q < n ==> (#[trigger] tables@[q])@.len() == nodes,
                        forall|q: int, k: int|
                            0 <= q < n && 0 <= k < nodes ==> (#[trigger] tables@[q]@[k] <==> first_reach(g, nl@, body_of_rule(g, q), k)),
                        names_view(cycle@) == cycle_names(g, nl@, i as int, j as int),
                        bi == body_of_rule(g, i as int),
                        bi < nodes,
                        reports_cycles(errors@, cycles_upto(g, nl@, i as int)),
                        reported(g, nl@, i as int),
                    decreases n - j,
                {
                    let bj = self.rule_at(j).body.index();
                    proof {
                        assert(bj == body_of_rule(g, j as int) && bj < nodes);
                    }
                    let ghost before = cycle@;
                    if tables[i][bj] && tables[j][bi] {
                        cycle.push(self.rule_at(j).name.as_str().to_owned());
                        proof {
                            assert(names_view(cycle@) =~= names_view(before).push(g.spec_rules()[j as int].name@));
                        }
                    }
                    proof {
                        assert(tables@[i as int]@[bj as int] <==> first_reach(g, nl@, body_of_rule(g, i as int), bj as int));
                        assert(tables@[j as int]@[bi as int] <==> first_reach(g, nl@, body_of_rule(g, j as int), bi as int));
                    }
                    j = j + 1;
                }
                let ghost before = errors@;
                errors.push(CheckError::LeftRecursion { cycle });
                proof {
                    assert forall|t: int| 0 <= t < errors@.len() implies (#[trigger] errors@[t] matches CheckError::LeftRecursion { cycle }
                        && names_view(cycle@) == cycles_upto(g, nl@, i + 1)[t]) by {
                        if t < before.len() {
                            assert(errors@[t] == before[t]);
                        }
                    }
                }
            } else {
                proof {
                    assert(!reported(g, nl@, i as int));
                }
            }
            i = i + 1;
        }
        proof {
            lemma_left_recursive_reported(g);
        }
        errors
    }

    /// Whether node `b` is entered by a first-graph edge from a node `seen` marks.
    fn reaches_back(&self, seen: &Vec<bool>, b: usize, nl: &Vec<bool>) -> (r: bool)
        requires
            seen@.len() == self.spec_nodes().len(),
            nl@.len() == self.spec_nodes().len(),
        ensures
            r <==> exists|k: int| 0 <= k < seen@.len() && seen@[k] && #[trigger] first_edge(*self, nl@, k, b as int),
    {
        let n = self.node_count();
        let mut k: usize = 0;
        while k < n
            invariant
                k <= n,
                n == self.spec_nodes().len(),
                seen@.len() == n,
                nl@.len() == n,
                forall|q: int| 0 <= q < k && seen@[q] ==> !#[trigger] first_edge(*self, nl@, q, b as int),
            decreases n - k,
        {
            if seen[k] {
                let succ = self.first_successors(k, nl);
                let mut found = false;
                let mut j: usize = 0;
                while j < succ.len()
                    invariant
                        j <= succ@.len(),
                        found <==> exists|q: int| 0 <= q < j && #[trigger] succ@[q] == b,
                    decreases succ.len() - j,
                {
                    if succ[j] == b {
                        found = true;
                    }
                    j = j + 1;
                }
                if found {
                    proof {
                        let q = choose|q: int| 0 <= q < succ@.len() && #[trigger] succ@[q] == b;
                        assert(first_edge(*self, nl@, k as int, b as int));
                    }
                    return true;
                }
            }
            k = k + 1;
        }
        false
    }
}

} // verus!
