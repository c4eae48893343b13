//! What a checked grammar means: which stretches of an input each node matches.
//!
//! The input is a sequence of Unicode scalar values and positions index it. A node *derives*
//! the stretch `i..j` of the input with a budget of `h` rule expansions; it *matches* the
//! stretch when some budget suffices. Alternation is unordered and ambiguity is allowed, so a
//! node may match many stretches from the same start: the recognizer computes all of them.
use vstd::prelude::*;

use crate::ast::{CharVal, Node, NodeId, NumVal, Repeat};
use crate::check::CheckedGrammar;
use crate::text::fold_eq;

verus! {

/// Whether the input character `got` matches the character `want` of a quoted string.
pub open spec fn char_matches(cv: CharVal, got: char, want: char) -> bool {
    if cv.case_sensitive {
        got == want
    } else {
        fold_eq(got, want)
    }
}

/// Whether a quoted string matches the input from `i` to `j`.
pub open spec fn char_val_matches(cv: CharVal, s: Seq<char>, i: int, j: int) -> bool {
    &&& j - i == cv.value@.len()
    &&& forall|k: int| 0 <= k < cv.value@.len() ==> char_matches(cv, #[trigger] s[i + k], cv.value@[k])
}

/// Whether a numeric terminal matches the input from `i` to `j`.
pub open spec fn num_val_matches(v: NumVal, s: Seq<char>, i: int, j: int) -> bool {
    match v {
        NumVal::Scalar(x) => j == i + 1 && s[i] as int == x,
        NumVal::Range { lo, hi } => j == i + 1 && lo <= s[i] as int <= hi,
        NumVal::Concat(values) => {
            &&& j - i == values@.len()
            &&& forall|k: int| 0 <= k < values@.len() ==> #[trigger] s[i + k] as int == values@[k]
        },
    }
}

/// The children a concatenation node strings together, or none for another node.
pub open spec fn items_of(g: CheckedGrammar, n: int) -> Seq<NodeId> {
    match g.spec_nodes()[n] {
        Node::Concat { items } => items@,
        _ => Seq::empty(),
    }
}

/// The node a repetition or optional node repeats.
pub open spec fn body_of(g: CheckedGrammar, n: int) -> int {
    match g.spec_nodes()[n] {
        Node::Repeat { body, .. } => body.spec_index() as int,
        Node::Optional { body } => body.spec_index() as int,
        _ => -1,
    }
}

/// A trigger for the witnesses of a derivation: every integer is one.
pub open spec fn wit(x: int) -> bool {
    true
}

/// Whether `c` is a node below `n` in the arena: after it and inside the arena.
pub open spec fn below(g: CheckedGrammar, n: int, c: int) -> bool {
    n < c < g.spec_nodes().len()
}

/// Whether node `n` derives the input from `i` to `j`, expanding at most `h` rule references
/// along any path.
pub open spec fn derives(g: CheckedGrammar, s: Seq<char>, n: int, i: int, j: int, h: nat) -> bool
    decreases h, g.spec_nodes().len() - n, 1nat, 0nat,
{
    if !(0 <= n < g.spec_nodes().len() && 0 <= i <= j <= s.len()) {
        false
    } else {
        match g.spec_nodes()[n] {
            Node::Alt { branches } => exists|b: int|
                #[trigger] wit(b) && 0 <= b < branches@.len() && below(g, n, branches@[b].spec_index() as int)
                    && derives(g, s, branches@[b].spec_index() as int, i, j, h),
            Node::Concat { items } => derives_items(g, s, n, items@.len() as int, i, j, h),
            Node::Repeat { repeat, body, .. } => below(g, n, body.spec_index() as int) && exists|c: nat|
                #[trigger] wit(c as int) && repeat.min <= c && (repeat.max matches Some(m) ==> c <= m)
                    && derives_rep(g, s, n, c, i, j, h),
            Node::Optional { body } => i == j || (below(g, n, body.spec_index() as int) && derives(
                g,
                s,
                body.spec_index() as int,
                i,
                j,
                h,
            )),
            Node::RuleRef { .. } => match g.spec_resolved()[n] {
                Some(t) => h > 0 && 0 <= g.spec_rule_index(t) < g.spec_rules().len() && derives(
                    g,
                    s,
                    g.spec_rule(t).body.spec_index() as int,
                    i,
                    j,
                    (h - 1) as nat,
                ),
                None => false,
            },
            Node::CharVal(cv) => char_val_matches(cv, s, i, j),
            Node::NumVal { value, .. } => num_val_matches(value, s, i, j),
            Node::ProseVal(_) => false,
        }
    }
}

/// Whether the first `k` items of concatenation `n` derive the input from `i` to `j`.
pub open spec fn derives_items(
    g: CheckedGrammar,
    s: Seq<char>,
    n: int,
    k: int,
    i: int,
    j: int,
    h: nat,
) -> bool
    decreases h, g.spec_nodes().len() - n, 0nat, k,
{
    if !(0 <= n < g.spec_nodes().len() && 0 <= k <= items_of(g, n).len() && 0 <= i <= j <= s.len()) {
        false
    } else if k == 0 {
        i == j
    } else {
        let item = items_of(g, n)[k - 1].spec_index() as int;
        below(g, n, item) && exists|m: int|
            #[trigger] wit(m) && i <= m <= j && derives_items(g, s, n, k - 1, i, m, h) && derives(
                g,
                s,
                item,
                m,
                j,
                h,
            )
    }
}

/// Whether exactly `c` copies of the body of repetition `n` derive the input from `i` to `j`.
pub open spec fn derives_rep(g: CheckedGrammar, s: Seq<char>, n: int, c: nat, i: int, j: int, h: nat) -> bool
    decreases h, g.spec_nodes().len() - n, 0nat, c,
{
    if !(0 <= n < g.spec_nodes().len() && below(g, n, body_of(g, n)) && 0 <= i <= j <= s.len()) {
        false
    } else if c == 0 {
        i == j
    } else {
        exists|m: int|
            #[trigger] wit(m) && i <= m <= j && derives_rep(g, s, n, (c - 1) as nat, i, m, h) && derives(
                g,
                s,
                body_of(g, n),
                m,
                j,
                h,
            )
    }
}

/// Whether node `n` matches the input from `i` to `j`.
pub open spec fn reaches(g: CheckedGrammar, s: Seq<char>, n: int, i: int, j: int) -> bool {
    exists|h: nat| #[trigger] derives(g, s, n, i, j, h)
}

/// Every position at which node `n` can finish matching, starting at `i`.
pub open spec fn ends(g: CheckedGrammar, s: Seq<char>, n: int, i: int) -> Set<int> {
    Set::new(|j: int| reaches(g, s, n, i, j))
}

/// Every position at which the first `k` items of concatenation `n` can finish, from `i`.
pub open spec fn items_ends(g: CheckedGrammar, s: Seq<char>, n: int, k: int, i: int) -> Set<int> {
    Set::new(|j: int| exists|h: nat| #[trigger] derives_items(g, s, n, k, i, j, h))
}

/// Every position at which exactly `c` copies of the body of repetition `n` can finish, from `i`.
pub open spec fn rep_ends(g: CheckedGrammar, s: Seq<char>, n: int, c: nat, i: int) -> Set<int> {
    Set::new(|j: int| exists|h: nat| #[trigger] derives_rep(g, s, n, c, i, j, h))
}

/// Every position node `n` can reach from some position of `from`.
pub open spec fn step(g: CheckedGrammar, s: Seq<char>, n: int, from: Set<int>) -> Set<int> {
    Set::new(|j: int| exists|p: int| from.contains(p) && #[trigger] ends(g, s, n, p).contains(j))
}

/// A larger budget derives everything a smaller one does.
pub proof fn lemma_derives_mono(g: CheckedGrammar, s: Seq<char>, n: int, i: int, j: int, h: nat, h2: nat)
    requires
        derives(g, s, n, i, j, h),
        h <= h2,
    ensures
        derives(g, s, n, i, j, h2),
    decreases h, g.spec_nodes().len() - n, 1nat, 0nat,
{
    match g.spec_nodes()[n] {
        Node::Alt { branches } => {
            let b = choose|b: int|
                #[trigger] wit(b) && 0 <= b < branches@.len() && below(g, n, branches@[b].spec_index() as int)
                    && derives(g, s, branches@[b].spec_index() as int, i, j, h);
            lemma_derives_mono(g, s, branches@[b].spec_index() as int, i, j, h, h2);
        },
        Node::Concat { items } => {
            lemma_items_mono(g, s, n, items@.len() as int, i, j, h, h2);
        },
        Node::Repeat { repeat, body, .. } => {
            let c = choose|c: nat|
                #[trigger] wit(c as int) && repeat.min <= c && (repeat.max matches Some(m) ==> c <= m)
                    && derives_rep(g, s, n, c, i, j, h);
            lemma_rep_mono(g, s, n, c, i, j, h, h2);
        },
        Node::Optional { body } => {
            if i != j {
                lemma_derives_mono(g, s, body.spec_index() as int, i, j, h, h2);
            }
        },
        Node::RuleRef { .. } => {
            let t = g.spec_resolved()[n]->Some_0;
            lemma_derives_mono(g, s, g.spec_rule(t).body.spec_index() as int, i, j, (h - 1) as nat, (h2 - 1) as nat);
        },
        _ => {},
    }
}

/// A larger budget derives everything a smaller one does, for a prefix of a concatenation.
pub proof fn lemma_items_mono(g: CheckedGrammar, s: Seq<char>, n: int, k: int, i: int, j: int, h: nat, h2: nat)
    requires
        derives_items(g, s, n, k, i, j, h),
        h <= h2,
    ensures
        derives_items(g, s, n, k, i, j, h2),
    decreases h, g.spec_nodes().len() - n, 0nat, k,
{
    if k > 0 {
        let item = items_of(g, n)[k - 1].spec_index() as int;
        let m = choose|m: int|
            #[trigger] wit(m) && i <= m <= j && derives_items(g, s, n, k - 1, i, m, h) && derives(
                g,
                s,
                item,
                m,
                j,
                h,
            );
        lemma_items_mono(g, s, n, k - 1, i, m, h, h2);
        lemma_derives_mono(g, s, item, m, j, h, h2);
    }
}

/// A larger budget derives everything a smaller one does, for copies of a repeated body.
pub proof fn lemma_rep_mono(g: CheckedGrammar, s: Seq<char>, n: int, c: nat, i: int, j: int, h: nat, h2: nat)
    requires
        derives_rep(g, s, n, c, i, j, h),
        h <= h2,
    ensures
        derives_rep(g, s, n, c, i, j, h2),
    decreases h, g.spec_nodes().len() - n, 0nat, c,
{
    if c > 0 {
        let m = choose|m: int|
            #[trigger] wit(m) && i <= m <= j && derives_rep(g, s, n, (c - 1) as nat, i, m, h) && derives(
                g,
                s,
                body_of(g, n),
                m,
                j,
                h,
            );
        lemma_rep_mono(g, s, n, (c - 1) as nat, i, m, h, h2);
        lemma_derives_mono(g, s, body_of(g, n), m, j, h, h2);
    }
}


/// Whether node `n` matches at a position past the end of the input, expanding at most `h`
/// rule references along any path. No terminal matches there, not even an empty one, so a
/// node matches only by reading nothing, and only the position itself is an ending.
pub open spec fn passes_past(g: CheckedGrammar, n: int, h: nat) -> bool
    decreases h, g.spec_nodes().len() - n, 1nat, 0nat,
{
    if !(0 <= n < g.spec_nodes().len()) {
        false
    } else {
        match g.spec_nodes()[n] {
            Node::Alt { branches } => exists|b: int|
                #[trigger] wit(b) && 0 <= b < branches@.len() && below(g, n, branches@[b].spec_index() as int)
                    && passes_past(g, branches@[b].spec_index() as int, h),
            Node::Concat { items } => passes_items_past(g, n, items@.len() as int, h),
            Node::Repeat { repeat, body, .. } => below(g, n, body.spec_index() as int) && (repeat.min == 0
                || passes_past(g, body.spec_index() as int, h)),
            Node::Optional { .. } => true,
            Node::RuleRef { .. } => match g.spec_resolved()[n] {
                Some(t) => h > 0 && 0 <= g.spec_rule_index(t) < g.spec_rules().len() && passes_past(
                    g,
                    g.spec_rule(t).body.spec_index() as int,
                    (h - 1) as nat,
                ),
                None => false,
            },
            _ => false,
        }
    }
}

/// Whether the first `k` items of concatenation `n` all match past the end of the input.
pub open spec fn passes_items_past(g: CheckedGrammar, n: int, k: int, h: nat) -> bool
    decreases h, g.spec_nodes().len() - n, 0nat, k,
{
    if !(0 <= n < g.spec_nodes().len() && 0 <= k <= items_of(g, n).len()) {
        false
    } else if k == 0 {
        true
    } else {
        let item = items_of(g, n)[k - 1].spec_index() as int;
        below(g, n, item) && passes_items_past(g, n, k - 1, h) && passes_past(g, item, h)
    }
}

/// Whether node `n` matches at a position past the end of the input with some budget.
pub open spec fn skips_past(g: CheckedGrammar, n: int) -> bool {
    exists|h: nat| #[trigger] passes_past(g, n, h)
}

/// Where node `n` can finish from `i`, for any start: the ends [`reaches`] gives within the
/// input, and past its end the start itself exactly when the node matches there.
pub open spec fn finishes(g: CheckedGrammar, s: Seq<char>, n: int, i: int, j: int) -> bool {
    if i <= s.len() {
        reaches(g, s, n, i, j)
    } else {
        j == i && skips_past(g, n)
    }
}

/// A larger budget passes wherever a smaller one does.
pub proof fn lemma_passes_mono(g: CheckedGrammar, n: int, h: nat, h2: nat)
    requires
        passes_past(g, n, h),
        h <= h2,
    ensures
        passes_past(g, n, h2),
    decreases h, g.spec_nodes().len() - n, 1nat, 0nat,
{
    match g.spec_nodes()[n] {
        Node::Alt { branches } => {
            let b = choose|b: int|
                #[trigger] wit(b) && 0 <= b < branches@.len() && below(g, n, branches@[b].spec_index() as int)
                    && passes_past(g, branches@[b].spec_index() as int, h);
            lemma_passes_mono(g, branches@[b].spec_index() as int, h, h2);
        },
        Node::Concat { items } => {
            lemma_items_passes_mono(g, n, items@.len() as int, h, h2);
        },
        Node::Repeat { repeat, body, .. } => {
            if repeat.min != 0 {
                lemma_passes_mono(g, body.spec_index() as int, h, h2);
            }
        },
        Node::RuleRef { .. } => {
            let t = g.spec_resolved()[n]->Some_0;
            lemma_passes_mono(g, g.spec_rule(t).body.spec_index() as int, (h - 1) as nat, (h2 - 1) as nat);
        },
        _ => {},
    }
}

/// A larger budget passes wherever a smaller one does, for a prefix of a concatenation.
pub proof fn lemma_items_passes_mono(g: CheckedGrammar, n: int, k: int, h: nat, h2: nat)
    requires
        passes_items_past(g, n, k, h),
        h <= h2,
    ensures
        passes_items_past(g, n, k, h2),
    decreases h, g.spec_nodes().len() - n, 0nat, k,
{
    if k > 0 {
        lemma_items_passes_mono(g, n, k - 1, h, h2);
        lemma_passes_mono(g, items_of(g, n)[k - 1].spec_index() as int, h, h2);
    }
}

/// Every item of a prefix that passes past the end passes, so a shorter prefix passes too.
pub proof fn lemma_items_past_prefix(g: CheckedGrammar, n: int, k: int, k2: int, h: nat)
    requires
        passes_items_past(g, n, k, h),
        0 <= k2 <= k,
    ensures
        passes_items_past(g, n, k2, h),
    decreases k - k2,
{
    if k2 < k {
        lemma_items_past_prefix(g, n, k - 1, k2, h);
    }
}

/// Whether `t` extends `s`: it starts with all of `s`.
pub open spec fn extends(t: Seq<char>, s: Seq<char>) -> bool {
    s.len() <= t.len() && forall|k: int| 0 <= k < s.len() ==> #[trigger] t[k] == s[k]
}

/// A derivation only reads the stretch it derives, so it survives extending the input.
pub proof fn lemma_derives_extend(g: CheckedGrammar, s: Seq<char>, t: Seq<char>, n: int, i: int, j: int, h: nat)
    requires
        derives(g, s, n, i, j, h),
        extends(t, s),
    ensures
        derives(g, t, n, i, j, h),
    decreases h, g.spec_nodes().len() - n, 1nat, 0nat,
{
    match g.spec_nodes()[n] {
        Node::Alt { branches } => {
            let b = choose|b: int|
                #[trigger] wit(b) && 0 <= b < branches@.len() && below(g, n, branches@[b].spec_index() as int)
                    && derives(g, s, branches@[b].spec_index() as int, i, j, h);
            lemma_derives_extend(g, s, t, branches@[b].spec_index() as int, i, j, h);
        },
        Node::Concat { items } => {
            lemma_items_extend(g, s, t, n, items@.len() as int, i, j, h);
        },
        Node::Repeat { repeat, body, .. } => {
            let c = choose|c: nat|
                #[trigger] wit(c as int) && repeat.min <= c && (repeat.max matches Some(m) ==> c <= m)
                    && derives_rep(g, s, n, c, i, j, h);
            lemma_rep_extend(g, s, t, n, c, i, j, h);
        },
        Node::Optional { body } => {
            if i != j {
                lemma_derives_extend(g, s, t, body.spec_index() as int, i, j, h);
            }
        },
        Node::RuleRef { .. } => {
            let tg = g.spec_resolved()[n]->Some_0;
            lemma_derives_extend(g, s, t, g.spec_rule(tg).body.spec_index() as int, i, j, (h - 1) as nat);
        },
        Node::CharVal(cv) => {
            assert forall|k: int| 0 <= k < cv.value@.len() implies char_matches(cv, #[trigger] t[i + k], cv.value@[k]) by {
                assert(t[i + k] == s[i + k]);
            }
        },
        Node::NumVal { value, .. } => {
            match value {
                NumVal::Concat(values) => {
                    assert forall|k: int| 0 <= k < values@.len() implies #[trigger] t[i + k] as int == values@[k] by {
                        assert(t[i + k] == s[i + k]);
                    }
                },
                _ => {
                    assert(t[i] == s[i]);
                },
            }
        },
        _ => {},
    }
}

/// [`lemma_derives_extend`] for a prefix of a concatenation.
pub proof fn lemma_items_extend(g: CheckedGrammar, s: Seq<char>, t: Seq<char>, n: int, k: int, i: int, j: int, h: nat)
    requires
        derives_items(g, s, n, k, i, j, h),
        extends(t, s),
    ensures
        derives_items(g, t, n, k, i, j, h),
    decreases h, g.spec_nodes().len() - n, 0nat, k,
{
    if k > 0 {
        let item = items_of(g, n)[k - 1].spec_index() as int;
        let m = choose|m: int|
            #[trigger] wit(m) && i <= m <= j && derives_items(g, s, n, k - 1, i, m, h) && derives(
                g,
                s,
                item,
                m,
                j,
                h,
            );
        lemma_items_extend(g, s, t, n, k - 1, i, m, h);
        lemma_derives_extend(g, s, t, item, m, j, h);
    }
}

/// [`lemma_derives_extend`] for copies of a repeated body.
pub proof fn lemma_rep_extend(g: CheckedGrammar, s: Seq<char>, t: Seq<char>, n: int, c: nat, i: int, j: int, h: nat)
    requires
        derives_rep(g, s, n, c, i, j, h),
        extends(t, s),
    ensures
        derives_rep(g, t, n, c, i, j, h),
    decreases h, g.spec_nodes().len() - n, 0nat, c,
{
    if c > 0 {
        let m = choose|m: int|
            #[trigger] wit(m) && i <= m <= j && derives_rep(g, s, n, (c - 1) as nat, i, m, h) && derives(
                g,
                s,
                body_of(g, n),
                m,
                j,
                h,
            );
        lemma_rep_extend(g, s, t, n, (c - 1) as nat, i, m, h);
        lemma_derives_extend(g, s, t, body_of(g, n), m, j, h);
    }
}

/// A derivation moves with its stretch when the input is preceded by more text.
pub proof fn lemma_derives_shift(g: CheckedGrammar, s: Seq<char>, p: Seq<char>, n: int, i: int, j: int, h: nat)
    requires
        derives(g, s, n, i, j, h),
    ensures
        derives(g, p + s, n, p.len() + i, p.len() + j, h),
    decreases h, g.spec_nodes().len() - n, 1nat, 0nat,
{
    let t = p + s;
    let d = p.len() as int;
    match g.spec_nodes()[n] {
        Node::Alt { branches } => {
            let b = choose|b: int|
                #[trigger] wit(b) && 0 <= b < branches@.len() && below(g, n, branches@[b].spec_index() as int)
                    && derives(g, s, branches@[b].spec_index() as int, i, j, h);
            lemma_derives_shift(g, s, p, branches@[b].spec_index() as int, i, j, h);
        },
        Node::Concat { items } => {
            lemma_items_shift(g, s, p, n, items@.len() as int, i, j, h);
        },
        Node::Repeat { repeat, body, .. } => {
            let c = choose|c: nat|
                #[trigger] wit(c as int) && repeat.min <= c && (repeat.max matches Some(m) ==> c <= m)
                    && derives_rep(g, s, n, c, i, j, h);
            lemma_rep_shift(g, s, p, n, c, i, j, h);
        },
        Node::Optional { body } => {
            if i != j {
                lemma_derives_shift(g, s, p, body.spec_index() as int, i, j, h);
            }
        },
        Node::RuleRef { .. } => {
            let tg = g.spec_resolved()[n]->Some_0;
            lemma_derives_shift(g, s, p, g.spec_rule(tg).body.spec_index() as int, i, j, (h - 1) as nat);
        },
        Node::CharVal(cv) => {
            assert forall|k: int| 0 <= k < cv.value@.len() implies char_matches(cv, #[trigger] t[d + i + k], cv.value@[k]) by {
                assert(t[d + i + k] == s[i + k]);
                assert(char_matches(cv, s[i + k], cv.value@[k]));
            }
        },
        Node::NumVal { value, .. } => {
            match value {
                NumVal::Concat(values) => {
                    assert forall|k: int| 0 <= k < values@.len() implies #[trigger] t[d + i + k] as int == values@[k] by {
                        assert(t[d + i + k] == s[i + k]);
                        assert(s[i + k] as int == values@[k]);
                    }
                },
                _ => {
                    assert(t[d + i] == s[i]);
                },
            }
        },
        _ => {},
    }
}

/// [`lemma_derives_shift`] for a prefix of a concatenation.
pub proof fn lemma_items_shift(g: CheckedGrammar, s: Seq<char>, p: Seq<char>, n: int, k: int, i: int, j: int, h: nat)
    requires
        derives_items(g, s, n, k, i, j, h),
    ensures
        derives_items(g, p + s, n, k, p.len() + i, p.len() + j, h),
    decreases h, g.spec_nodes().len() - n, 0nat, k,
{
    if k > 0 {
        let item = items_of(g, n)[k - 1].spec_index() as int;
        let m = choose|m: int|
            #[trigger] wit(m) && i <= m <= j && derives_items(g, s, n, k - 1, i, m, h) && derives(
                g,
                s,
                item,
                m,
                j,
                h,
            );
        lemma_items_shift(g, s, p, n, k - 1, i, m, h);
        lemma_derives_shift(g, s, p, item, m, j, h);
        assert(wit(p.len() + m));
    }
}

/// [`lemma_derives_shift`] for copies of a repeated body.
pub proof fn lemma_rep_shift(g: CheckedGrammar, s: Seq<char>, p: Seq<char>, n: int, c: nat, i: int, j: int, h: nat)
    requires
        derives_rep(g, s, n, c, i, j, h),
    ensures
        derives_rep(g, p + s, n, c, p.len() + i, p.len() + j, h),
    decreases h, g.spec_nodes().len() - n, 0nat, c,
{
    if c > 0 {
        let m = choose|m: int|
            #[trigger] wit(m) && i <= m <= j && derives_rep(g, s, n, (c - 1) as nat, i, m, h) && derives(
                g,
                s,
                body_of(g, n),
                m,
                j,
                h,
            );
        lemma_rep_shift(g, s, p, n, (c - 1) as nat, i, m, h);
        lemma_derives_shift(g, s, p, body_of(g, n), m, j, h);
        assert(wit(p.len() + m));
    }
}

/// A match survives extending the input.
pub proof fn lemma_reaches_extend(g: CheckedGrammar, s: Seq<char>, t: Seq<char>, n: int, i: int, j: int)
    requires
        reaches(g, s, n, i, j),
        extends(t, s),
    ensures
        reaches(g, t, n, i, j),
{
    let h = choose|h: nat| #[trigger] derives(g, s, n, i, j, h);
    lemma_derives_extend(g, s, t, n, i, j, h);
}

/// An end of a prefix of a concatenation survives extending the input.
pub proof fn lemma_items_ends_extend(g: CheckedGrammar, s: Seq<char>, t: Seq<char>, n: int, k: int, i: int, j: int)
    requires
        items_ends(g, s, n, k, i).contains(j),
        extends(t, s),
    ensures
        items_ends(g, t, n, k, i).contains(j),
{
    let h = choose|h: nat| #[trigger] derives_items(g, s, n, k, i, j, h);
    lemma_items_extend(g, s, t, n, k, i, j, h);
}

/// An end of copies of a repeated body survives extending the input.
pub proof fn lemma_rep_ends_extend(g: CheckedGrammar, s: Seq<char>, t: Seq<char>, n: int, c: nat, i: int, j: int)
    requires
        rep_ends(g, s, n, c, i).contains(j),
        extends(t, s),
    ensures
        rep_ends(g, t, n, c, i).contains(j),
{
    let h = choose|h: nat| #[trigger] derives_rep(g, s, n, c, i, j, h);
    lemma_rep_extend(g, s, t, n, c, i, j, h);
}

/// Extending is transitive.
pub proof fn lemma_extends_trans(a: Seq<char>, b: Seq<char>, c: Seq<char>)
    requires
        extends(b, a),
        extends(c, b),
    ensures
        extends(c, a),
{
    assert forall|k: int| 0 <= k < a.len() implies #[trigger] c[k] == a[k] by {
        assert(c[k] == b[k]);
    }
}

/// Where a match starts and ends: inside the input, the end not before the start.
pub proof fn lemma_matches_bounds(g: CheckedGrammar, s: Seq<char>, n: int, i: int, j: int)
    requires
        reaches(g, s, n, i, j),
    ensures
        0 <= i <= j <= s.len(),
        0 <= n < g.spec_nodes().len(),
{
    let h = choose|h: nat| #[trigger] derives(g, s, n, i, j, h);
}

/// A node of a well-formed grammar whose children come after it.
pub open spec fn children_below(g: CheckedGrammar, n: int) -> bool {
    match g.spec_nodes()[n] {
        Node::Alt { branches } => forall|b: int| 0 <= b < branches@.len() ==> #[trigger] below(g, n, branches@[b].spec_index() as int),
        Node::Concat { items } => forall|b: int| 0 <= b < items@.len() ==> #[trigger] below(g, n, items@[b].spec_index() as int),
        Node::Repeat { body, .. } => below(g, n, body.spec_index() as int),
        Node::Optional { body } => below(g, n, body.spec_index() as int),
        _ => true,
    }
}

/// Every node of a checked grammar has its children after it.
pub proof fn lemma_children_below(g: CheckedGrammar, n: int)
    requires
        g.wf(),
        0 <= n < g.spec_nodes().len(),
    ensures
        children_below(g, n),
{
    assert(crate::check::node_ok(g.spec_nodes(), g.spec_resolved(), g.spec_names(), g.spec_user_rules(), g.spec_user_nodes(), n));
}

/// An alternation matches where one of its branches does.
pub proof fn lemma_alt_ends(g: CheckedGrammar, s: Seq<char>, n: int, i: int, j: int)
    requires
        g.wf(),
        0 <= n < g.spec_nodes().len(),
        g.spec_nodes()[n] is Alt,
    ensures
        reaches(g, s, n, i, j) <==> exists|b: int|
            0 <= b < g.spec_nodes()[n]->Alt_branches@.len() && #[trigger] reaches(
                g,
                s,
                g.spec_nodes()[n]->Alt_branches@[b].spec_index() as int,
                i,
                j,
            ),
{
    lemma_children_below(g, n);
    let branches = g.spec_nodes()[n]->Alt_branches;
    if reaches(g, s, n, i, j) {
        let h = choose|h: nat| #[trigger] derives(g, s, n, i, j, h);
        let b = choose|b: int|
            #[trigger] wit(b) && 0 <= b < branches@.len() && below(g, n, branches@[b].spec_index() as int)
                && derives(g, s, branches@[b].spec_index() as int, i, j, h);
        assert(reaches(g, s, branches@[b].spec_index() as int, i, j));
    }
    if exists|b: int| 0 <= b < branches@.len() && #[trigger] reaches(g, s, branches@[b].spec_index() as int, i, j) {
        let b = choose|b: int| 0 <= b < branches@.len() && #[trigger] reaches(g, s, branches@[b].spec_index() as int, i, j);
        let h = choose|h: nat| #[trigger] derives(g, s, branches@[b].spec_index() as int, i, j, h);
        lemma_matches_bounds(g, s, branches@[b].spec_index() as int, i, j);
        assert(below(g, n, branches@[b].spec_index() as int));
        assert(wit(b));
        assert(derives(g, s, n, i, j, h));
    }
}

/// A concatenation matches where all its items do, in order.
pub proof fn lemma_concat_ends(g: CheckedGrammar, s: Seq<char>, n: int, i: int)
    requires
        0 <= n < g.spec_nodes().len(),
        g.spec_nodes()[n] is Concat,
    ensures
        ends(g, s, n, i) == items_ends(g, s, n, items_of(g, n).len() as int, i),
{
    assert(ends(g, s, n, i) =~= items_ends(g, s, n, items_of(g, n).len() as int, i)) by {
        assert forall|j: int| ends(g, s, n, i).contains(j) implies items_ends(g, s, n, items_of(g, n).len() as int, i).contains(j) by {
            let h = choose|h: nat| #[trigger] derives(g, s, n, i, j, h);
            assert(derives_items(g, s, n, items_of(g, n).len() as int, i, j, h));
        }
        assert forall|j: int| items_ends(g, s, n, items_of(g, n).len() as int, i).contains(j) implies ends(g, s, n, i).contains(j) by {
            let h = choose|h: nat| #[trigger] derives_items(g, s, n, items_of(g, n).len() as int, i, j, h);
            assert(derives(g, s, n, i, j, h));
        }
    }
}

/// No items match exactly where they start.
pub proof fn lemma_items_zero(g: CheckedGrammar, s: Seq<char>, n: int, i: int)
    requires
        0 <= n < g.spec_nodes().len(),
        0 <= i <= s.len(),
    ensures
        items_ends(g, s, n, 0, i) == Set::<int>::empty().insert(i),
{
    assert(items_ends(g, s, n, 0, i) =~= Set::<int>::empty().insert(i)) by {
        assert(derives_items(g, s, n, 0, i, i, 0));
    }
}

/// One more item: everywhere the next item reaches from where the earlier ones ended.
pub proof fn lemma_items_step(g: CheckedGrammar, s: Seq<char>, n: int, k: int, i: int)
    requires
        g.wf(),
        0 <= n < g.spec_nodes().len(),
        g.spec_nodes()[n] is Concat,
        0 <= k < items_of(g, n).len(),
    ensures
        items_ends(g, s, n, k + 1, i) == step(g, s, items_of(g, n)[k].spec_index() as int, items_ends(g, s, n, k, i)),
{
    lemma_children_below(g, n);
    let item = items_of(g, n)[k].spec_index() as int;
    assert(below(g, n, item));
    let lhs = items_ends(g, s, n, k + 1, i);
    let rhs = step(g, s, item, items_ends(g, s, n, k, i));
    assert forall|j: int| lhs.contains(j) implies rhs.contains(j) by {
        let h = choose|h: nat| #[trigger] derives_items(g, s, n, k + 1, i, j, h);
        let m = choose|m: int|
            #[trigger] wit(m) && i <= m <= j && derives_items(g, s, n, k, i, m, h) && derives(g, s, item, m, j, h);
        assert(items_ends(g, s, n, k, i).contains(m));
        assert(ends(g, s, item, m).contains(j));
    }
    assert forall|j: int| rhs.contains(j) implies lhs.contains(j) by {
        let m = choose|m: int| items_ends(g, s, n, k, i).contains(m) && #[trigger] ends(g, s, item, m).contains(j);
        let h1 = choose|h: nat| #[trigger] derives_items(g, s, n, k, i, m, h);
        let h2 = choose|h: nat| #[trigger] derives(g, s, item, m, j, h);
        let h = if h1 < h2 { h2 } else { h1 };
        lemma_items_mono(g, s, n, k, i, m, h1, h);
        lemma_derives_mono(g, s, item, m, j, h2, h);
        lemma_matches_bounds(g, s, item, m, j);
        assert(wit(m));
        assert(derives_items(g, s, n, k + 1, i, j, h));
    }
    assert(lhs =~= rhs);
}

/// Zero copies match exactly where they start.
pub proof fn lemma_rep_zero(g: CheckedGrammar, s: Seq<char>, n: int, i: int)
    requires
        g.wf(),
        0 <= n < g.spec_nodes().len(),
        g.spec_nodes()[n] is Repeat,
        0 <= i <= s.len(),
    ensures
        rep_ends(g, s, n, 0, i) == Set::<int>::empty().insert(i),
{
    lemma_children_below(g, n);
    assert(rep_ends(g, s, n, 0, i) =~= Set::<int>::empty().insert(i)) by {
        assert(derives_rep(g, s, n, 0, i, i, 0));
    }
}

/// One more copy: everywhere the body reaches from where the earlier copies ended.
pub proof fn lemma_rep_step(g: CheckedGrammar, s: Seq<char>, n: int, c: nat, i: int)
    requires
        g.wf(),
        0 <= n < g.spec_nodes().len(),
        g.spec_nodes()[n] is Repeat,
    ensures
        rep_ends(g, s, n, c + 1, i) == step(g, s, body_of(g, n), rep_ends(g, s, n, c, i)),
{
    lemma_children_below(g, n);
    let body = body_of(g, n);
    let lhs = rep_ends(g, s, n, c + 1, i);
    let rhs = step(g, s, body, rep_ends(g, s, n, c, i));
    assert forall|j: int| lhs.contains(j) implies rhs.contains(j) by {
        let h = choose|h: nat| #[trigger] derives_rep(g, s, n, c + 1, i, j, h);
        let m = choose|m: int|
            #[trigger] wit(m) && i <= m <= j && derives_rep(g, s, n, c, i, m, h) && derives(g, s, body, m, j, h);
        assert(rep_ends(g, s, n, c, i).contains(m));
        assert(ends(g, s, body, m).contains(j));
    }
    assert forall|j: int| rhs.contains(j) implies lhs.contains(j) by {
        let m = choose|m: int| rep_ends(g, s, n, c, i).contains(m) && #[trigger] ends(g, s, body, m).contains(j);
        let h1 = choose|h: nat| #[trigger] derives_rep(g, s, n, c, i, m, h);
        let h2 = choose|h: nat| #[trigger] derives(g, s, body, m, j, h);
        let h = if h1 < h2 { h2 } else { h1 };
        lemma_rep_mono(g, s, n, c, i, m, h1, h);
        lemma_derives_mono(g, s, body, m, j, h2, h);
        lemma_matches_bounds(g, s, body, m, j);
        assert(wit(m));
        assert(derives_rep(g, s, n, c + 1, i, j, h));
    }
    assert(lhs =~= rhs);
}

/// Whether `c` is a repetition count the bounds allow.
pub open spec fn count_allowed(r: Repeat, c: nat) -> bool {
    r.min <= c && (r.max matches Some(m) ==> c <= m)
}

/// A repetition matches where an allowed number of copies of its body does.
pub proof fn lemma_repeat_ends(g: CheckedGrammar, s: Seq<char>, n: int, i: int, j: int)
    requires
        g.wf(),
        0 <= n < g.spec_nodes().len(),
        g.spec_nodes()[n] is Repeat,
    ensures
        reaches(g, s, n, i, j) <==> exists|c: nat|
            count_allowed(g.spec_nodes()[n]->Repeat_repeat, c) && #[trigger] rep_ends(g, s, n, c, i).contains(j),
{
    lemma_children_below(g, n);
    let repeat = g.spec_nodes()[n]->Repeat_repeat;
    if reaches(g, s, n, i, j) {
        let h = choose|h: nat| #[trigger] derives(g, s, n, i, j, h);
        let c = choose|c: nat|
            #[trigger] wit(c as int) && repeat.min <= c && (repeat.max matches Some(m) ==> c <= m)
                && derives_rep(g, s, n, c, i, j, h);
        assert(rep_ends(g, s, n, c, i).contains(j));
    }
    if exists|c: nat| count_allowed(repeat, c) && #[trigger] rep_ends(g, s, n, c, i).contains(j) {
        let c = choose|c: nat| count_allowed(repeat, c) && #[trigger] rep_ends(g, s, n, c, i).contains(j);
        let h = choose|h: nat| #[trigger] derives_rep(g, s, n, c, i, j, h);
        assert(wit(c as int));
        assert(derives(g, s, n, i, j, h));
    }
}

/// An optional matches where it starts, and wherever its body does.
pub proof fn lemma_optional_ends(g: CheckedGrammar, s: Seq<char>, n: int, i: int)
    requires
        g.wf(),
        0 <= n < g.spec_nodes().len(),
        g.spec_nodes()[n] is Optional,
        0 <= i <= s.len(),
    ensures
        ends(g, s, n, i) == ends(g, s, body_of(g, n), i).insert(i),
{
    lemma_children_below(g, n);
    let body = body_of(g, n);
    assert(ends(g, s, n, i) =~= ends(g, s, body, i).insert(i)) by {
        assert(derives(g, s, n, i, i, 0));
        assert forall|j: int| ends(g, s, n, i).contains(j) && j != i implies ends(g, s, body, i).contains(j) by {
            let h = choose|h: nat| #[trigger] derives(g, s, n, i, j, h);
            assert(derives(g, s, body, i, j, h));
        }
        assert forall|j: int| ends(g, s, body, i).contains(j) implies ends(g, s, n, i).contains(j) by {
            let h = choose|h: nat| #[trigger] derives(g, s, body, i, j, h);
            lemma_matches_bounds(g, s, body, i, j);
            assert(derives(g, s, n, i, j, h));
        }
    }
}

/// A rule reference matches where the body of the rule it resolves to does.
pub proof fn lemma_ref_ends(g: CheckedGrammar, s: Seq<char>, n: int, i: int)
    requires
        g.wf(),
        0 <= n < g.spec_nodes().len(),
        g.spec_nodes()[n] is RuleRef,
    ensures
        g.spec_resolved()[n] is Some,
        ends(g, s, n, i) == ends(g, s, g.spec_rule(g.spec_resolved()[n]->Some_0).body.spec_index() as int, i),
{
    assert(crate::check::node_ok(g.spec_nodes(), g.spec_resolved(), g.spec_names(), g.spec_user_rules(), g.spec_user_nodes(), n));
    let t = g.spec_resolved()[n]->Some_0;
    let body = g.spec_rule(t).body.spec_index() as int;
    assert(0 <= g.spec_rule_index(t) < g.spec_rules().len());
    assert(ends(g, s, n, i) =~= ends(g, s, body, i)) by {
        assert forall|j: int| ends(g, s, n, i).contains(j) implies ends(g, s, body, i).contains(j) by {
            let h = choose|h: nat| #[trigger] derives(g, s, n, i, j, h);
            assert(derives(g, s, body, i, j, (h - 1) as nat));
        }
        assert forall|j: int| ends(g, s, body, i).contains(j) implies ends(g, s, n, i).contains(j) by {
            let h = choose|h: nat| #[trigger] derives(g, s, body, i, j, h);
            lemma_matches_bounds(g, s, body, i, j);
            assert(derives(g, s, n, i, j, h + 1));
        }
    }
}

/// A terminal matches by its own rule, with no budget needed.
pub proof fn lemma_terminal_ends(g: CheckedGrammar, s: Seq<char>, n: int, i: int, j: int)
    requires
        0 <= n < g.spec_nodes().len(),
        g.spec_nodes()[n] is CharVal || g.spec_nodes()[n] is NumVal || g.spec_nodes()[n] is ProseVal,
    ensures
        reaches(g, s, n, i, j) <==> 0 <= i <= j <= s.len() && derives(g, s, n, i, j, 0),
{
    if reaches(g, s, n, i, j) {
        let h = choose|h: nat| #[trigger] derives(g, s, n, i, j, h);
    }
}

/// Nothing is reached from nowhere.
pub proof fn lemma_step_empty(g: CheckedGrammar, s: Seq<char>, n: int)
    ensures
        step(g, s, n, Set::empty()) == Set::<int>::empty(),
{
    assert(step(g, s, n, Set::empty()) =~= Set::<int>::empty());
}

/// Reaching from more places reaches more.
pub proof fn lemma_step_mono(g: CheckedGrammar, s: Seq<char>, n: int, a: Set<int>, b: Set<int>)
    requires
        a.subset_of(b),
    ensures
        step(g, s, n, a).subset_of(step(g, s, n, b)),
{
}

/// Reaching from a union reaches the union of what each part reaches.
pub proof fn lemma_step_union(g: CheckedGrammar, s: Seq<char>, n: int, a: Set<int>, b: Set<int>)
    ensures
        step(g, s, n, a.union(b)) == step(g, s, n, a).union(step(g, s, n, b)),
{
    assert(step(g, s, n, a.union(b)) =~= step(g, s, n, a).union(step(g, s, n, b)));
}

/// Everywhere between `a` copies (included) and `b` copies (excluded) of the body of
/// repetition `n` can finish, from `i`.
pub open spec fn rep_range(g: CheckedGrammar, s: Seq<char>, n: int, a: nat, b: nat, i: int) -> Set<int> {
    Set::new(|j: int| exists|c: nat| a <= c < b && #[trigger] rep_ends(g, s, n, c, i).contains(j))
}

/// Once one more copy reaches nothing new, no number of further copies does.
pub proof fn lemma_rep_fix(g: CheckedGrammar, s: Seq<char>, n: int, i: int, k: nat, c: nat)
    requires
        g.wf(),
        0 <= n < g.spec_nodes().len(),
        g.spec_nodes()[n] is Repeat,
        rep_ends(g, s, n, k + 1, i) == rep_ends(g, s, n, k, i),
        k <= c,
    ensures
        rep_ends(g, s, n, c, i) == rep_ends(g, s, n, k, i),
    decreases c - k,
{
    if c > k {
        lemma_rep_fix(g, s, n, i, k, (c - 1) as nat);
        lemma_rep_step(g, s, n, (c - 1) as nat, i);
        lemma_rep_step(g, s, n, k, i);
    }
}

/// Once some number of copies reaches nothing, every larger number reaches nothing.
pub proof fn lemma_rep_empty(g: CheckedGrammar, s: Seq<char>, n: int, i: int, k: nat, c: nat)
    requires
        g.wf(),
        0 <= n < g.spec_nodes().len(),
        g.spec_nodes()[n] is Repeat,
        rep_ends(g, s, n, k, i) == Set::<int>::empty(),
        k <= c,
    ensures
        rep_ends(g, s, n, c, i) == Set::<int>::empty(),
    decreases c - k,
{
    if c > k {
        lemma_rep_empty(g, s, n, i, k, (c - 1) as nat);
        lemma_rep_step(g, s, n, (c - 1) as nat, i);
        lemma_step_empty(g, s, body_of(g, n));
    }
}

/// One more copy of a range of counts is the next range of counts.
pub proof fn lemma_step_range(g: CheckedGrammar, s: Seq<char>, n: int, a: nat, b: nat, i: int)
    requires
        g.wf(),
        0 <= n < g.spec_nodes().len(),
        g.spec_nodes()[n] is Repeat,
    ensures
        step(g, s, body_of(g, n), rep_range(g, s, n, a, b, i)).subset_of(rep_range(g, s, n, a + 1, b + 1, i)),
{
    let body = body_of(g, n);
    assert forall|j: int| step(g, s, body, rep_range(g, s, n, a, b, i)).contains(j) implies rep_range(g, s, n, a + 1, b + 1, i).contains(j) by {
        let p = choose|p: int| rep_range(g, s, n, a, b, i).contains(p) && #[trigger] ends(g, s, body, p).contains(j);
        let c = choose|c: nat| a <= c < b && #[trigger] rep_ends(g, s, n, c, i).contains(p);
        lemma_rep_step(g, s, n, c, i);
        assert(step(g, s, body, rep_ends(g, s, n, c, i)).contains(j));
        assert(rep_ends(g, s, n, c + 1, i).contains(j));
    }
}

/// A set that holds the copies at `min` and is closed under one more copy holds the copies
/// at every larger count.
pub proof fn lemma_rep_closed(g: CheckedGrammar, s: Seq<char>, n: int, i: int, min: nat, x: Set<int>, c: nat)
    requires
        g.wf(),
        0 <= n < g.spec_nodes().len(),
        g.spec_nodes()[n] is Repeat,
        rep_ends(g, s, n, min, i).subset_of(x),
        step(g, s, body_of(g, n), x).subset_of(x),
        min <= c,
    ensures
        rep_ends(g, s, n, c, i).subset_of(x),
    decreases c - min,
{
    if c > min {
        lemma_rep_closed(g, s, n, i, min, x, (c - 1) as nat);
        lemma_rep_step(g, s, n, (c - 1) as nat, i);
        lemma_step_mono(g, s, body_of(g, n), rep_ends(g, s, n, (c - 1) as nat, i), x);
    }
}

} // verus!
