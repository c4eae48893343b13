//! Productivity: which nodes can match some string at all.
//!
//! A fixpoint over the arena, in rounds. In round `r` a node is settled when what it needs
//! was settled in an earlier round: a terminal or an optional needs nothing; an alternation
//! needs one branch, a concatenation every item, a repetition its body unless zero copies are
//! allowed, a reference the body of its rule. The round a node settles in is its rank: the
//! height of its shortest derivation. Following, from a node of rank `r`, a child of smaller
//! rank reaches terminals in at most `r` steps, which is what lets the generator stop
//! choosing and still finish.
//!
//! A node that never settles matches no string whatsoever ([`lemma_derives_ranked`]). Prose
//! is treated as a terminal: it never matches anything, but start rules that reach it are
//! refused before any analysis is consulted.
use vstd::prelude::*;

use crate::ast::{Node, NodeId};
use crate::check::{valid_target, CheckedGrammar};
use crate::ast::NumVal;
use crate::check::node_ok;
use crate::language::{
    below, body_of, char_matches, derives, derives_items, derives_rep, extends, items_of,
    lemma_derives_mono, lemma_derives_shift, lemma_items_extend, lemma_items_mono,
    lemma_rep_extend, reaches, wit,
};
use crate::reach::{edge, lemma_usable_edge, lemma_usable_self, representable, scalar_ok, usable_from};

verus! {

/// Whether node `m` has a rank below `r`.
pub open spec fn ranked_below(rk: Seq<Option<u64>>, m: int, r: u64) -> bool {
    &&& 0 <= m < rk.len()
    &&& rk[m] matches Some(q) && q < r
}

/// Whether node `m` has a rank.
pub open spec fn ranked(rk: Seq<Option<u64>>, m: int) -> bool {
    0 <= m < rk.len() && rk[m] is Some
}

/// Whether node `n` can settle in round `r`, given the ranks of earlier rounds.
pub open spec fn settled(g: CheckedGrammar, rk: Seq<Option<u64>>, n: int, r: u64) -> bool {
    match g.spec_nodes()[n] {
        Node::Alt { branches } => exists|b: int|
            0 <= b < branches@.len() && #[trigger] ranked_below(rk, branches@[b].spec_index() as int, r),
        Node::Concat { items } => forall|b: int|
            0 <= b < items@.len() ==> #[trigger] ranked_below(rk, items@[b].spec_index() as int, r),
        Node::Repeat { repeat, body, .. } => repeat.min == 0 || ranked_below(rk, body.spec_index() as int, r),
        Node::Optional { .. } => true,
        Node::RuleRef { .. } => match g.spec_resolved()[n] {
            Some(t) => valid_target(t, g.spec_user_rules()) && ranked_below(
                rk,
                g.spec_rule(t).body.spec_index() as int,
                r,
            ),
            None => false,
        },
        _ => true,
    }
}

/// Whether node `n` could settle given every rank there is.
pub open spec fn could_settle(g: CheckedGrammar, rk: Seq<Option<u64>>, n: int) -> bool {
    match g.spec_nodes()[n] {
        Node::Alt { branches } => exists|b: int|
            0 <= b < branches@.len() && #[trigger] ranked(rk, branches@[b].spec_index() as int),
        Node::Concat { items } => forall|b: int|
            0 <= b < items@.len() ==> #[trigger] ranked(rk, items@[b].spec_index() as int),
        Node::Repeat { repeat, body, .. } => repeat.min == 0 || ranked(rk, body.spec_index() as int),
        Node::Optional { .. } => true,
        Node::RuleRef { .. } => match g.spec_resolved()[n] {
            Some(t) => valid_target(t, g.spec_user_rules()) && ranked(rk, g.spec_rule(t).body.spec_index() as int),
            None => false,
        },
        _ => true,
    }
}

/// Whether `rk` is the productivity fixpoint of `g`: every ranked node settled in its own
/// round, and no unranked node could settle.
pub open spec fn ranks_ok(g: CheckedGrammar, rk: Seq<Option<u64>>) -> bool {
    &&& rk.len() == g.spec_nodes().len()
    &&& forall|n: int| 0 <= n < rk.len() ==> match #[trigger] rk[n] {
        Some(r) => settled(g, rk, n, r),
        None => !could_settle(g, rk, n),
    }
}

/// The ranks after `r` rounds of the fixpoint: a node without a rank gets rank `r` in round
/// `r` when it settles given the ranks of the rounds before.
pub open spec fn ranks_after(g: CheckedGrammar, r: nat) -> Seq<Option<u64>>
    decreases r,
{
    if r == 0 {
        Seq::new(g.spec_nodes().len(), |k: int| None::<u64>)
    } else {
        let prev = ranks_after(g, (r - 1) as nat);
        Seq::new(
            prev.len(),
            |k: int|
                if prev[k] is Some {
                    prev[k]
                } else if settled(g, prev, k, r as u64) {
                    Some(r as u64)
                } else {
                    None
                },
        )
    }
}

/// The ranks of `g`: what the rounds reach once no round changes anything, which happens
/// within one round per node.
pub open spec fn ranks_of(g: CheckedGrammar) -> Seq<Option<u64>> {
    ranks_after(g, (g.spec_nodes().len() + 1) as nat)
}

/// After `r` rounds every rank is at most `r`.
proof fn lemma_ranks_after_bound(g: CheckedGrammar, r: nat)
    requires
        r <= u64::MAX,
    ensures
        ranks_after(g, r).len() == g.spec_nodes().len(),
        forall|k: int| 0 <= k < ranks_after(g, r).len() ==> match #[trigger] ranks_after(g, r)[k] {
            Some(q) => 1 <= q <= r,
            None => true,
        },
    decreases r,
{
    if r > 0 {
        lemma_ranks_after_bound(g, (r - 1) as nat);
    }
}

/// Settling looks only at which nodes rank below the round.
proof fn lemma_settled_same(g: CheckedGrammar, a: Seq<Option<u64>>, b: Seq<Option<u64>>, n: int, r1: u64, r2: u64)
    requires
        forall|m: int| ranked_below(a, m, r1) == #[trigger] ranked_below(b, m, r2),
    ensures
        settled(g, a, n, r1) == settled(g, b, n, r2),
{
    match g.spec_nodes()[n] {
        Node::Alt { branches } => {
            if settled(g, a, n, r1) {
                let x = choose|x: int| 0 <= x < branches@.len() && #[trigger] ranked_below(a, branches@[x].spec_index() as int, r1);
                assert(ranked_below(b, branches@[x].spec_index() as int, r2));
            }
            if settled(g, b, n, r2) {
                let x = choose|x: int| 0 <= x < branches@.len() && #[trigger] ranked_below(b, branches@[x].spec_index() as int, r2);
                assert(ranked_below(a, branches@[x].spec_index() as int, r1));
            }
        },
        Node::Concat { items } => {
            assert forall|x: int| 0 <= x < items@.len() implies #[trigger] ranked_below(a, items@[x].spec_index() as int, r1)
                == ranked_below(b, items@[x].spec_index() as int, r2) by {}
        },
        Node::Repeat { body, .. } => {
            assert(ranked_below(a, body.spec_index() as int, r1) == ranked_below(b, body.spec_index() as int, r2));
        },
        Node::RuleRef { .. } => {
            if let Some(t) = g.spec_resolved()[n] {
                assert(ranked_below(a, g.spec_rule(t).body.spec_index() as int, r1) == ranked_below(
                    b,
                    g.spec_rule(t).body.spec_index() as int,
                    r2,
                ));
            }
        },
        _ => {},
    }
}

/// A round that changes nothing is followed only by rounds that change nothing.
proof fn lemma_ranks_stable(g: CheckedGrammar, r: nat, s: nat)
    requires
        r >= 1,
        ranks_after(g, r) == ranks_after(g, (r - 1) as nat),
        r <= s,
        s < u64::MAX,
    ensures
        ranks_after(g, s) == ranks_after(g, r),
    decreases s - r,
{
    if r < s {
        let prev = ranks_after(g, r);
        lemma_ranks_after_bound(g, (r - 1) as nat);
        let next = ranks_after(g, (r + 1) as nat);
        assert forall|m: int| ranked_below(prev, m, (r + 1) as u64) == #[trigger] ranked_below(prev, m, r as u64) by {
            if 0 <= m < prev.len() {
                if let Some(q) = prev[m] {
                    assert(ranks_after(g, (r - 1) as nat)[m] == prev[m]);
                }
            }
        }
        assert forall|k: int| 0 <= k < prev.len() implies #[trigger] next[k] == prev[k] by {
            if prev[k] is None {
                let before = ranks_after(g, (r - 1) as nat);
                assert(before[k] is None);
                assert(!settled(g, before, k, r as u64));
                lemma_settled_same(g, prev, prev, k, (r + 1) as u64, r as u64);
            }
        }
        assert(next =~= prev);
        lemma_ranks_stable(g, (r + 1) as nat, s);
    }
}

/// How many nodes have no rank yet.
pub open spec fn unranked(rk: Seq<Option<u64>>) -> nat
    decreases rk.len(),
{
    if rk.len() == 0 {
        0
    } else {
        unranked(rk.subrange(0, rk.len() - 1)) + if rk[rk.len() - 1] is None {
            1nat
        } else {
            0nat
        }
    }
}

/// Ranking an unranked node lowers the count by one.
proof fn lemma_unranked_mark(rk: Seq<Option<u64>>, i: int, r: u64)
    requires
        0 <= i < rk.len(),
        rk[i] is None,
    ensures
        unranked(rk.update(i, Some(r))) + 1 == unranked(rk),
    decreases rk.len(),
{
    let t = rk.update(i, Some(r));
    if i == rk.len() - 1 {
        assert(t.subrange(0, t.len() - 1) =~= rk.subrange(0, rk.len() - 1));
    } else {
        lemma_unranked_mark(rk.subrange(0, rk.len() - 1), i, r);
        assert(t.subrange(0, t.len() - 1) =~= rk.subrange(0, rk.len() - 1).update(i, Some(r)));
    }
}

/// With no node ranked, every node is unranked.
proof fn lemma_unranked_none(rk: Seq<Option<u64>>)
    requires
        forall|k: int| 0 <= k < rk.len() ==> rk[k] is None,
    ensures
        unranked(rk) == rk.len(),
    decreases rk.len(),
{
    if rk.len() > 0 {
        lemma_unranked_none(rk.subrange(0, rk.len() - 1));
    }
}

/// There are never more unranked nodes than nodes.
proof fn lemma_unranked_bound(rk: Seq<Option<u64>>)
    ensures
        unranked(rk) <= rk.len(),
    decreases rk.len(),
{
    if rk.len() > 0 {
        lemma_unranked_bound(rk.subrange(0, rk.len() - 1));
    }
}

/// Giving another node a rank keeps every settled node settled.
proof fn lemma_settled_grows(g: CheckedGrammar, rk: Seq<Option<u64>>, i: int, q: u64, n: int, r: u64)
    requires
        0 <= i < rk.len(),
        rk[i] is None,
        settled(g, rk, n, r),
    ensures
        settled(g, rk.update(i, Some(q)), n, r),
{
    let t = rk.update(i, Some(q));
    match g.spec_nodes()[n] {
        Node::Alt { branches } => {
            let b = choose|b: int|
                0 <= b < branches@.len() && #[trigger] ranked_below(rk, branches@[b].spec_index() as int, r);
            assert(ranked_below(t, branches@[b].spec_index() as int, r));
        },
        Node::Concat { items } => {
            assert forall|b: int| 0 <= b < items@.len() implies #[trigger] ranked_below(t, items@[b].spec_index() as int, r) by {
                assert(ranked_below(rk, items@[b].spec_index() as int, r));
            }
        },
        _ => {},
    }
}

/// Whether node `n` settles in round `r`, given the ranks so far.
fn settles(g: &CheckedGrammar, rk: &Vec<Option<u64>>, n: usize, r: u64) -> (b: bool)
    requires
        n < g.spec_nodes().len(),
        rk@.len() == g.spec_nodes().len(),
    ensures
        b == settled(*g, rk@, n as int, r),
{
    proof {
        use_type_invariant(g);
        assert(crate::check::node_ok(
            g.spec_nodes(),
            g.spec_resolved(),
            g.spec_names(),
            g.spec_user_rules(),
            g.spec_user_nodes(),
            n as int,
        ));
    }
    let id = NodeId::from_index(n as u32);
    match g.node(id) {
        Node::Alt { branches } => {
            let ghost bs = g.spec_nodes()[n as int]->Alt_branches@;
            assert(bs == branches@);
            let mut k: usize = 0;
            while k < branches.len()
                invariant
                    k <= branches@.len(),
                    bs == branches@,
                    g.spec_nodes()[n as int] is Alt,
                    bs == g.spec_nodes()[n as int]->Alt_branches@,
                    rk@.len() == g.spec_nodes().len(),
                    forall|b: int| 0 <= b < bs.len() ==> (#[trigger] bs[b]).spec_index() < rk@.len(),
                    forall|b: int| 0 <= b < k ==> !#[trigger] ranked_below(rk@, bs[b].spec_index() as int, r),
                decreases branches.len() - k,
            {
                match rk[branches[k].index()] {
                    Some(q) => {
                        if q < r {
                            assert(ranked_below(rk@, bs[k as int].spec_index() as int, r));
                            return true;
                        }
                    },
                    None => {},
                }
                k = k + 1;
            }
            false
        },
        Node::Concat { items } => {
            let ghost bs = g.spec_nodes()[n as int]->Concat_items@;
            assert(bs == items@);
            let mut k: usize = 0;
            while k < items.len()
                invariant
                    k <= items@.len(),
                    bs == items@,
                    g.spec_nodes()[n as int] is Concat,
                    bs == g.spec_nodes()[n as int]->Concat_items@,
                    rk@.len() == g.spec_nodes().len(),
                    forall|b: int| 0 <= b < bs.len() ==> (#[trigger] bs[b]).spec_index() < rk@.len(),
                    forall|b: int| 0 <= b < k ==> #[trigger] ranked_below(rk@, bs[b].spec_index() as int, r),
                decreases items.len() - k,
            {
                let ok = match rk[items[k].index()] {
                    Some(q) => q < r,
                    None => false,
                };
                if !ok {
                    assert(!ranked_below(rk@, bs[k as int].spec_index() as int, r));
                    return false;
                }
                k = k + 1;
            }
            true
        },
        Node::Repeat { repeat, body, .. } => {
            if repeat.min == 0 {
                true
            } else {
                match rk[body.index()] {
                    Some(q) => q < r,
                    None => false,
                }
            }
        },
        Node::Optional { .. } => true,
        Node::RuleRef { .. } => match g.target(id) {
            Some(t) => {
                let body = g.rule_by_id(t).body;
                proof {
                    assert(g.spec_rules()[g.spec_rule_index(t)] == g.spec_rule(t));
                }
                match rk[body.index()] {
                    Some(q) => q < r,
                    None => false,
                }
            },
            None => false,
        },
        _ => true,
    }
}

/// The productivity fixpoint of `g`.
pub fn productivity(g: &CheckedGrammar) -> (rk: Vec<Option<u64>>)
    ensures
        ranks_ok(*g, rk@),
        rk@ == ranks_of(*g),
{
    proof {
        use_type_invariant(g);
    }
    let n = g.node_count();
    let mut rk: Vec<Option<u64>> = Vec::new();
    let mut i: usize = 0;
    while i < n
        invariant
            i <= n,
            rk@.len() == i,
            forall|k: int| 0 <= k < i ==> rk@[k] is None,
        decreases n - i,
    {
        rk.push(None);
        i = i + 1;
    }
    proof {
        lemma_unranked_none(rk@);
        assert(rk@ =~= ranks_after(*g, 0));
    }
    let mut r: u64 = 1;
    loop
        invariant
            n == g.spec_nodes().len(),
            n <= u32::MAX,
            rk@.len() == n,
            1 <= r,
            r + unranked(rk@) <= n + 1,
            forall|k: int| 0 <= k < n ==> match #[trigger] rk@[k] {
                Some(q) => q < r && settled(*g, rk@, k, q),
                None => true,
            },
            rk@ == ranks_after(*g, (r - 1) as nat),
        ensures
            ranks_ok(*g, rk@),
            rk@ == ranks_of(*g),
        decreases unranked(rk@),
    {
        let ghost start = rk@;
        let mut changed = false;
        let mut k: usize = 0;
        while k < n
            invariant
                n == g.spec_nodes().len(),
                n <= u32::MAX,
                rk@.len() == n,
                1 <= r,
                k <= n,
                r + unranked(start) <= n + 1,
                forall|m: int| 0 <= m < n ==> match #[trigger] rk@[m] {
                    Some(q) => q <= r && settled(*g, rk@, m, q),
                    None => true,
                },
                !changed ==> rk@ == start,
                changed ==> unranked(rk@) < unranked(start),
                !changed ==> forall|m: int| 0 <= m < k && #[trigger] rk@[m] is None ==> !settled(*g, rk@, m, r),
                start == ranks_after(*g, (r - 1) as nat),
                forall|m: int| 0 <= m < k ==> #[trigger] rk@[m] == ranks_after(*g, r as nat)[m],
                forall|m: int| k <= m < n ==> #[trigger] rk@[m] == start[m],
            decreases n - k,
        {
            proof {
                assert(ranks_after(*g, r as nat).len() == n) by {
                    lemma_ranks_after_bound(*g, r as nat);
                }
                assert forall|m: int| ranked_below(rk@, m, r) == #[trigger] ranked_below(start, m, r) by {
                    if 0 <= m < n && m < k {
                        assert(rk@[m] == ranks_after(*g, r as nat)[m]);
                    }
                }
                lemma_settled_same(*g, rk@, start, k as int, r, r);
            }
            if rk[k].is_none() && settles(g, &rk, k, r) {
                proof {
                    assert forall|m: int| 0 <= m < n implies match #[trigger] rk@.update(k as int, Some(r))[m] {
                        Some(q) => q <= r && settled(*g, rk@.update(k as int, Some(r)), m, q),
                        None => true,
                    } by {
                        if m == k {
                            lemma_settled_grows(*g, rk@, k as int, r, m, r);
                        } else if let Some(q) = rk@[m] {
                            lemma_settled_grows(*g, rk@, k as int, r, m, q);
                        }
                    }
                    lemma_unranked_mark(rk@, k as int, r);
                }
                rk.set(k, Some(r));
                changed = true;
            }
            k = k + 1;
        }
        if !changed {
            proof {
                assert forall|m: int| 0 <= m < n implies match #[trigger] rk@[m] {
                    Some(q) => settled(*g, rk@, m, q),
                    None => !could_settle(*g, rk@, m),
                } by {
                    if rk@[m] is None {
                        assert(!settled(*g, rk@, m, r));
                        if could_settle(*g, rk@, m) {
                            self::lemma_could_is_settled(*g, rk@, m, r);
                        }
                    }
                }
                assert(rk@ =~= ranks_after(*g, r as nat));
                lemma_ranks_stable(*g, r as nat, (n + 1) as nat);
            }
            break;
        }
        proof {
            lemma_unranked_bound(rk@);
            assert(rk@ =~= ranks_after(*g, r as nat));
        }
        r = r + 1;
    }
    rk
}

/// When every rank is below `r`, a node that could settle settles in round `r`.
proof fn lemma_could_is_settled(g: CheckedGrammar, rk: Seq<Option<u64>>, n: int, r: u64)
    requires
        forall|k: int| 0 <= k < rk.len() ==> match #[trigger] rk[k] {
            Some(q) => q < r,
            None => true,
        },
        could_settle(g, rk, n),
    ensures
        settled(g, rk, n, r),
{
    match g.spec_nodes()[n] {
        Node::Alt { branches } => {
            let b = choose|b: int| 0 <= b < branches@.len() && #[trigger] ranked(rk, branches@[b].spec_index() as int);
            let m = branches@[b].spec_index() as int;
            assert(rk[m] is Some);
            assert(ranked_below(rk, m, r));
        },
        Node::Concat { items } => {
            assert forall|b: int| 0 <= b < items@.len() implies #[trigger] ranked_below(rk, items@[b].spec_index() as int, r) by {
                assert(ranked(rk, items@[b].spec_index() as int));
                let m = items@[b].spec_index() as int;
                assert(rk[m] is Some);
            }
        },
        Node::Repeat { repeat, body, .. } => {
            if repeat.min != 0 {
                let m = body.spec_index() as int;
                assert(rk[m] is Some);
            }
        },
        Node::RuleRef { .. } => {
            if let Some(t) = g.spec_resolved()[n] {
                let m = g.spec_rule(t).body.spec_index() as int;
                if 0 <= m < rk.len() {
                    assert(rk[m] is Some);
                }
            }
        },
        _ => {},
    }
}

/// A node that matches some stretch of some input has a rank: what never settles matches
/// nothing at all.
pub proof fn lemma_derives_ranked(g: CheckedGrammar, rk: Seq<Option<u64>>, s: Seq<char>, n: int, i: int, j: int, h: nat)
    requires
        g.wf(),
        ranks_ok(g, rk),
        derives(g, s, n, i, j, h),
    ensures
        ranked(rk, n),
    decreases h, g.spec_nodes().len() - n, 1nat, 0nat,
{
    match g.spec_nodes()[n] {
        Node::Alt { branches } => {
            let b = choose|b: int|
                #[trigger] wit(b) && 0 <= b < branches@.len() && below(g, n, branches@[b].spec_index() as int)
                    && derives(g, s, branches@[b].spec_index() as int, i, j, h);
            lemma_derives_ranked(g, rk, s, branches@[b].spec_index() as int, i, j, h);
            assert(ranked(rk, branches@[b].spec_index() as int));
        },
        Node::Concat { items } => {
            lemma_items_ranked(g, rk, s, n, items@.len() as int, i, j, h);
            assert forall|b: int| 0 <= b < items@.len() implies #[trigger] ranked(rk, items@[b].spec_index() as int) by {
                assert(items_of(g, n)[b] == items@[b]);
            }
        },
        Node::Repeat { repeat, body, .. } => {
            let c = choose|c: nat|
                #[trigger] wit(c as int) && repeat.min <= c && (repeat.max matches Some(m) ==> c <= m)
                    && derives_rep(g, s, n, c, i, j, h);
            if repeat.min != 0 {
                let m = choose|m: int|
                    #[trigger] wit(m) && i <= m <= j && derives_rep(g, s, n, (c - 1) as nat, i, m, h) && derives(
                        g,
                        s,
                        body_of(g, n),
                        m,
                        j,
                        h,
                    );
                lemma_derives_ranked(g, rk, s, body_of(g, n), m, j, h);
            }
        },
        Node::RuleRef { .. } => {
            let t = g.spec_resolved()[n]->Some_0;
            assert(crate::check::node_ok(
                g.spec_nodes(),
                g.spec_resolved(),
                g.spec_names(),
                g.spec_user_rules(),
                g.spec_user_nodes(),
                n,
            ));
            lemma_derives_ranked(g, rk, s, g.spec_rule(t).body.spec_index() as int, i, j, (h - 1) as nat);
        },
        _ => {},
    }
    if rk[n] is None {
        assert(could_settle(g, rk, n));
    }
}

/// Every item of a derived prefix of a concatenation has a rank.
proof fn lemma_items_ranked(g: CheckedGrammar, rk: Seq<Option<u64>>, s: Seq<char>, n: int, k: int, i: int, j: int, h: nat)
    requires
        g.wf(),
        ranks_ok(g, rk),
        derives_items(g, s, n, k, i, j, h),
    ensures
        forall|b: int| 0 <= b < k ==> #[trigger] ranked(rk, items_of(g, n)[b].spec_index() as int),
    decreases h, g.spec_nodes().len() - n, 0nat, k,
{
    if k > 0 {
        let item = items_of(g, n)[k - 1].spec_index() as int;
        let m = choose|m: int|
            #[trigger] wit(m) && i <= m <= j && derives_items(g, s, n, k - 1, i, m, h) && derives(
                g,
                s,
                item,
                m,
                j,
                h,
            );
        lemma_items_ranked(g, rk, s, n, k - 1, i, m, h);
        lemma_derives_ranked(g, rk, s, item, m, j, h);
    }
}

/// Whether node `n` matches some whole input.
pub open spec fn derivable(g: CheckedGrammar, n: int) -> bool {
    exists|t: Seq<char>| #[trigger] reaches(g, t, n, 0, t.len() as int)
}

/// `t` extends each of its prefixes.
proof fn lemma_extends_append(a: Seq<char>, b: Seq<char>)
    ensures
        extends(a + b, a),
{
    assert forall|k: int| 0 <= k < a.len() implies #[trigger] (a + b)[k] == a[k] by {}
}

/// A ranked node that reaches neither prose nor an unrepresentable terminal matches some
/// whole input: together with [`lemma_derives_ranked`], the ranks are exactly the nodes that
/// match something. The input is built from the terminals along the ranks.
pub proof fn lemma_ranked_derives(g: CheckedGrammar, rk: Seq<Option<u64>>, n: int) -> (r: (Seq<char>, nat))
    requires
        g.wf(),
        ranks_ok(g, rk),
        ranked(rk, n),
        usable_from(g, n),
    ensures
        derives(g, r.0, n, 0, r.0.len() as int, r.1),
    decreases rk[n]->Some_0, items_of(g, n).len() + 1,
{
    let q = rk[n]->Some_0;
    assert(settled(g, rk, n, q));
    assert(node_ok(g.spec_nodes(), g.spec_resolved(), g.spec_names(), g.spec_user_rules(), g.spec_user_nodes(), n));
    match g.spec_nodes()[n] {
        Node::Alt { branches } => {
            let b = choose|b: int| 0 <= b < branches@.len() && #[trigger] ranked_below(rk, branches@[b].spec_index() as int, q);
            let c = branches@[b].spec_index() as int;
            assert(edge(g, n, c));
            lemma_usable_edge(g, n, c);
            let (t, h) = lemma_ranked_derives(g, rk, c);
            assert(wit(b));
            (t, h)
        },
        Node::Concat { items } => {
            assert forall|b: int| 0 <= b < items@.len() implies #[trigger] ranked_below(rk, items_of(g, n)[b].spec_index() as int, q) by {
                assert(ranked_below(rk, items@[b].spec_index() as int, q));
            }
            lemma_items_derives(g, rk, n, items@.len() as int, q)
        },
        Node::Repeat { repeat, body, .. } => {
            let bd = body.spec_index() as int;
            if repeat.min == 0 {
                let t = Seq::<char>::empty();
                assert(derives_rep(g, t, n, 0, 0, 0, 0));
                assert(wit(0));
                (t, 0)
            } else {
                assert(ranked_below(rk, bd, q));
                assert(edge(g, n, bd));
                lemma_usable_edge(g, n, bd);
                let (tb, hb) = lemma_ranked_derives(g, rk, bd);
                let t = lemma_rep_derives(g, n, tb, hb, repeat.min as nat);
                assert(wit(repeat.min as int));
                (t, hb)
            }
        },
        Node::Optional { .. } => (Seq::<char>::empty(), 0),
        Node::RuleRef { .. } => {
            let tg = g.spec_resolved()[n]->Some_0;
            let bd = g.spec_rule(tg).body.spec_index() as int;
            assert(g.spec_rules()[g.spec_rule_index(tg)] == g.spec_rule(tg));
            assert(edge(g, n, bd));
            lemma_usable_edge(g, n, bd);
            let (t, h) = lemma_ranked_derives(g, rk, bd);
            (t, h + 1)
        },
        Node::CharVal(cv) => {
            let t = cv.value@;
            assert forall|k: int| 0 <= k < cv.value@.len() implies char_matches(cv, #[trigger] t[0 + k], cv.value@[k]) by {
                assert(t[0 + k] == cv.value@[k]);
            }
            (t, 0)
        },
        Node::NumVal { value, .. } => {
            lemma_usable_self(g, n);
            match value {
                NumVal::Scalar(x) => {
                    let t = seq![(x as int) as char];
                    assert(t[0] as int == x);
                    (t, 0)
                },
                NumVal::Range { lo, hi } => {
                    let x = choose|x: int| lo <= x <= hi && #[trigger] scalar_ok(x);
                    let t = seq![x as char];
                    assert(t[0] as int == x);
                    (t, 0)
                },
                NumVal::Concat(values) => {
                    let t = Seq::new(values@.len(), |k: int| (values@[k] as int) as char);
                    assert forall|k: int| 0 <= k < values@.len() implies #[trigger] t[0 + k] as int == values@[k] by {
                        assert(scalar_ok(values@[k] as int));
                    }
                    (t, 0)
                },
            }
        },
        Node::ProseVal(_) => {
            lemma_usable_self(g, n);
            (Seq::<char>::empty(), 0)
        },
    }
}

/// The first `k` items of a concatenation whose items all rank below `q` match some whole
/// input together.
proof fn lemma_items_derives(g: CheckedGrammar, rk: Seq<Option<u64>>, n: int, k: int, q: u64) -> (r: (Seq<char>, nat))
    requires
        g.wf(),
        ranks_ok(g, rk),
        0 <= n < g.spec_nodes().len(),
        g.spec_nodes()[n] is Concat,
        usable_from(g, n),
        rk[n] == Some(q),
        0 <= k <= items_of(g, n).len(),
        forall|b: int| 0 <= b < items_of(g, n).len() ==> #[trigger] ranked_below(rk, items_of(g, n)[b].spec_index() as int, q),
    ensures
        derives_items(g, r.0, n, k, 0, r.0.len() as int, r.1),
    decreases q, k,
{
    if k == 0 {
        (Seq::<char>::empty(), 0)
    } else {
        let (t1, h1) = lemma_items_derives(g, rk, n, k - 1, q);
        let item = items_of(g, n)[k - 1].spec_index() as int;
        assert(ranked_below(rk, item, q));
        assert(node_ok(g.spec_nodes(), g.spec_resolved(), g.spec_names(), g.spec_user_rules(), g.spec_user_nodes(), n));
        assert(edge(g, n, item)) by {
            assert(g.spec_nodes()[n]->Concat_items@[k - 1].spec_index() == item);
        }
        lemma_usable_edge(g, n, item);
        let (t2, h2) = lemma_ranked_derives(g, rk, item);
        let t = t1 + t2;
        let h = if h1 < h2 {
            h2
        } else {
            h1
        };
        lemma_extends_append(t1, t2);
        lemma_items_extend(g, t1, t, n, k - 1, 0, t1.len() as int, h1);
        lemma_items_mono(g, t, n, k - 1, 0, t1.len() as int, h1, h);
        lemma_derives_shift(g, t2, t1, item, 0, t2.len() as int, h2);
        lemma_derives_mono(g, t, item, t1.len() as int, t.len() as int, h2, h);
        assert(wit(t1.len() as int));
        (t, h)
    }
}

/// `c` copies of a body that matches `tb` match `tb` repeated `c` times.
proof fn lemma_rep_derives(g: CheckedGrammar, n: int, tb: Seq<char>, h: nat, c: nat) -> (t: Seq<char>)
    requires
        0 <= n < g.spec_nodes().len(),
        below(g, n, body_of(g, n)),
        derives(g, tb, body_of(g, n), 0, tb.len() as int, h),
    ensures
        derives_rep(g, t, n, c, 0, t.len() as int, h),
    decreases c,
{
    if c == 0 {
        Seq::<char>::empty()
    } else {
        let t1 = lemma_rep_derives(g, n, tb, h, (c - 1) as nat);
        let t = t1 + tb;
        lemma_extends_append(t1, tb);
        lemma_rep_extend(g, t1, t, n, (c - 1) as nat, 0, t1.len() as int, h);
        lemma_derives_shift(g, tb, t1, body_of(g, n), 0, tb.len() as int, h);
        assert(wit(t1.len() as int));
        t
    }
}

/// The ranks are exactly the productive nodes: a node that reaches neither prose nor an
/// unrepresentable terminal has a rank if and only if it matches some input.
pub proof fn lemma_ranked_iff_derivable(g: CheckedGrammar, rk: Seq<Option<u64>>, n: int)
    requires
        g.wf(),
        ranks_ok(g, rk),
        0 <= n < g.spec_nodes().len(),
        usable_from(g, n),
    ensures
        ranked(rk, n) <==> derivable(g, n),
{
    if ranked(rk, n) {
        let (t, h) = lemma_ranked_derives(g, rk, n);
        assert(reaches(g, t, n, 0, t.len() as int));
    }
    if derivable(g, n) {
        let t = choose|t: Seq<char>| #[trigger] reaches(g, t, n, 0, t.len() as int);
        let h = choose|h: nat| #[trigger] derives(g, t, n, 0, t.len() as int, h);
        lemma_derives_ranked(g, rk, t, n, 0, t.len() as int, h);
    }
}

} // verus!
