//! The set-of-positions recognizer.
//!
//! For an element and a start position, this computes the set of **all** end positions at
//! which the element can finish. Unordered alternation and ambiguity are then correct by
//! construction: nothing ever commits to the first branch that matched, because nothing ever
//! returns a single answer to commit to.
//!
//! A recognizer is bound to one input for its lifetime. The memo table is keyed by rule and
//! position and means nothing against a different input, so there is no API for swapping one
//! in. Memoization is a pure optimization: every answer is the set [`ends`] defines, with or
//! without it.
use vstd::prelude::*;

use std::collections::BTreeSet;
use std::collections::HashMap;

use crate::ast::{CharVal, Node, NodeId, NumVal, Repeat, RuleId};
use crate::check::CheckedGrammar;
use crate::error::MatchError;
use crate::language::{
    body_of, char_matches, char_val_matches, count_allowed, derives, ends, items_ends, items_of,
    lemma_alt_ends, lemma_children_below, lemma_concat_ends, lemma_items_step, lemma_items_zero,
    lemma_matches_bounds, lemma_optional_ends, lemma_ref_ends, lemma_rep_step, lemma_rep_zero,
    lemma_repeat_ends, lemma_step_empty, lemma_step_mono, lemma_step_union, lemma_terminal_ends,
    reaches, num_val_matches, rep_ends, step, rep_range, lemma_rep_fix, lemma_rep_empty,
    lemma_step_range, lemma_rep_closed, finishes, lemma_items_passes_mono, lemma_items_past_prefix,
    lemma_passes_mono, passes_items_past, passes_past, skips_past, below, wit,
};
use crate::positions::{
    all_at_most, copy_of, holds, increasing, lemma_increasing_len, minus, pset, same, single, union,
};
use crate::reach::{gate_error, lemma_names_rule_unique, lemma_usable_not_gated, names_rule, start_usable};
use crate::sets::{set_has, set_of};
use crate::text::{chars_fold_eq, chars_of};

verus! {

broadcast use vstd::std_specs::hash::group_hash_axioms;

/// How deep recognition may nest rule references before giving up with
/// [`MatchError::DepthLimit`].
pub const DEFAULT_MAX_DEPTH: usize = 512;

/// Resource limits for recognition.
#[derive(Clone, Copy, Debug, PartialEq, Eq, Structural)]
pub struct MatchOptions {
    /// Give up after this many steps, rather than running unboundedly.
    ///
    /// Default `None`. Exceeding it is [`MatchError::StepLimit`], never a silent rejection:
    /// "does not match" and "could not decide" are different answers.
    pub max_steps: Option<u64>,
    /// Give up when rule references nest deeper than this. Default
    /// `Some(DEFAULT_MAX_DEPTH)`; `None` allows as deep as a `usize` counts.
    pub max_depth: Option<usize>,
}

impl Default for MatchOptions {
    fn default() -> (o: Self)
        ensures
            o.max_steps is None,
            o.max_depth == Some(DEFAULT_MAX_DEPTH),
    {
        MatchOptions { max_steps: None, max_depth: Some(DEFAULT_MAX_DEPTH) }
    }
}

/// What is known about one rule at one position.
enum Memo {
    /// Being evaluated: seeing this again at the same position is left recursion.
    InProgress,
    /// Evaluated, with these end positions.
    Done(Vec<usize>),
}

/// The memo table: for each rule of the table, what is known at each position.
struct MemoTable {
    per_rule: Vec<HashMap<usize, Memo>>,
}

/// Whether `e` is one of the errors a match can stop with under options `o`, with memoization
/// on or off as `m` says, having taken `steps` steps: the step limit only when one is set and
/// the steps exceed it, the in-progress guard only when memoization is on, or the depth limit.
pub open spec fn limit_error(e: MatchError, o: MatchOptions, m: bool, steps: u64) -> bool {
    match e {
        MatchError::StepLimit => o.max_steps matches Some(limit) && steps > limit,
        MatchError::DepthLimit => true,
        MatchError::LeftRecursionDetected { .. } => m,
        _ => false,
    }
}

/// How many rule references deep recognition may follow under options `o`.
pub open spec fn depth_budget(o: MatchOptions) -> usize {
    match o.max_depth {
        Some(d) => d,
        None => usize::MAX,
    }
}

/// Whether deciding node `n` from position `p` of `s` can meet a rule reference nested more
/// than `d` references deep: one met on the way, at a position the input lets the search
/// reach, with no budget left to follow it.
pub open spec fn too_deep(g: CheckedGrammar, s: Seq<char>, n: int, p: int, d: nat) -> bool
    decreases d, g.spec_nodes().len() - n,
{
    if !(0 <= n < g.spec_nodes().len()) {
        false
    } else {
        match g.spec_nodes()[n] {
            Node::Alt { branches } => exists|b: int|
                0 <= b < branches@.len() && below(g, n, (#[trigger] branches@[b]).spec_index() as int) && too_deep(
                    g,
                    s,
                    branches@[b].spec_index() as int,
                    p,
                    d,
                ),
            Node::Concat { items } => exists|k: int, q: int|
                #![trigger items@[k], items_ends(g, s, n, k, p).contains(q)]
                0 <= k < items@.len() && below(g, n, items@[k].spec_index() as int) && items_ends(g, s, n, k, p).contains(q)
                    && too_deep(g, s, items@[k].spec_index() as int, q, d),
            Node::Repeat { body, .. } => below(g, n, body.spec_index() as int) && exists|c: nat, q: int|
                #[trigger] rep_ends(g, s, n, c, p).contains(q) && too_deep(g, s, body.spec_index() as int, q, d),
            Node::Optional { body } => below(g, n, body.spec_index() as int) && too_deep(g, s, body.spec_index() as int, p, d),
            Node::RuleRef { .. } => match g.spec_resolved()[n] {
                Some(t) => d == 0 || too_deep(g, s, g.spec_rule(t).body.spec_index() as int, p, (d - 1) as nat),
                None => false,
            },
            _ => false,
        }
    }
}

/// Whether deciding node `n` past the end of the input, where nothing is read, can meet a
/// rule reference nested more than `d` references deep.
pub open spec fn too_deep_past(g: CheckedGrammar, n: int, d: nat) -> bool
    decreases d, g.spec_nodes().len() - n,
{
    if !(0 <= n < g.spec_nodes().len()) {
        false
    } else {
        match g.spec_nodes()[n] {
            Node::Alt { branches } => exists|b: int|
                0 <= b < branches@.len() && below(g, n, (#[trigger] branches@[b]).spec_index() as int) && too_deep_past(
                    g,
                    branches@[b].spec_index() as int,
                    d,
                ),
            Node::Concat { items } => exists|k: int|
                0 <= k < items@.len() && below(g, n, (#[trigger] items@[k]).spec_index() as int) && too_deep_past(
                    g,
                    items@[k].spec_index() as int,
                    d,
                ),
            Node::Repeat { body, .. } => below(g, n, body.spec_index() as int) && too_deep_past(g, body.spec_index() as int, d),
            Node::RuleRef { .. } => match g.spec_resolved()[n] {
                Some(t) => d == 0 || too_deep_past(g, g.spec_rule(t).body.spec_index() as int, (d - 1) as nat),
                None => false,
            },
            _ => false,
        }
    }
}

/// A branch too deep makes its alternation too deep.
proof fn lemma_past_alt(g: CheckedGrammar, n: int, branches: Vec<NodeId>, b: int, d: nat)
    requires
        0 <= n < g.spec_nodes().len(),
        g.spec_nodes()[n] == (Node::Alt { branches }),
        0 <= b < branches@.len(),
        below(g, n, branches@[b].spec_index() as int),
        too_deep_past(g, branches@[b].spec_index() as int, d),
    ensures
        too_deep_past(g, n, d),
{
    assert(too_deep_past(g, n, d) == match g.spec_nodes()[n] {
        Node::Alt { branches } => exists|b: int|
            0 <= b < branches@.len() && below(g, n, (#[trigger] branches@[b]).spec_index() as int) && too_deep_past(
                g,
                branches@[b].spec_index() as int,
                d,
            ),
        _ => true,
    });
}

/// An item too deep from where the items before it end makes its concatenation too deep.
proof fn lemma_deep_concat(g: CheckedGrammar, s: Seq<char>, n: int, items: Vec<NodeId>, k: int, p: int, q: int, d: nat)
    requires
        0 <= n < g.spec_nodes().len(),
        g.spec_nodes()[n] == (Node::Concat { items }),
        0 <= k < items@.len(),
        below(g, n, items@[k].spec_index() as int),
        items_ends(g, s, n, k, p).contains(q),
        too_deep(g, s, items@[k].spec_index() as int, q, d),
    ensures
        too_deep(g, s, n, p, d),
{
    assert(too_deep(g, s, n, p, d) == match g.spec_nodes()[n] {
        Node::Concat { items } => exists|k: int, q: int|
            #![trigger items@[k], items_ends(g, s, n, k, p).contains(q)]
            0 <= k < items@.len() && below(g, n, items@[k].spec_index() as int) && items_ends(g, s, n, k, p).contains(q)
                && too_deep(g, s, items@[k].spec_index() as int, q, d),
        _ => true,
    });
    assert(items_ends(g, s, n, k, p).contains(q) && items@[k] == items@[k]);
}

/// A branch too deep makes its alternation too deep.
proof fn lemma_deep_alt(g: CheckedGrammar, s: Seq<char>, n: int, branches: Vec<NodeId>, b: int, p: int, d: nat)
    requires
        0 <= n < g.spec_nodes().len(),
        g.spec_nodes()[n] == (Node::Alt { branches }),
        0 <= b < branches@.len(),
        below(g, n, branches@[b].spec_index() as int),
        too_deep(g, s, branches@[b].spec_index() as int, p, d),
    ensures
        too_deep(g, s, n, p, d),
{
    assert(too_deep(g, s, n, p, d) == match g.spec_nodes()[n] {
        Node::Alt { branches } => exists|b: int|
            0 <= b < branches@.len() && below(g, n, (#[trigger] branches@[b]).spec_index() as int) && too_deep(
                g,
                s,
                branches@[b].spec_index() as int,
                p,
                d,
            ),
        _ => true,
    });
}

/// An item too deep past the end makes its concatenation too deep there.
proof fn lemma_past_concat(g: CheckedGrammar, n: int, items: Vec<NodeId>, k: int, d: nat)
    requires
        0 <= n < g.spec_nodes().len(),
        g.spec_nodes()[n] == (Node::Concat { items }),
        0 <= k < items@.len(),
        below(g, n, items@[k].spec_index() as int),
        too_deep_past(g, items@[k].spec_index() as int, d),
    ensures
        too_deep_past(g, n, d),
{
    assert(too_deep_past(g, n, d) == match g.spec_nodes()[n] {
        Node::Concat { items } => exists|k: int|
            0 <= k < items@.len() && below(g, n, (#[trigger] items@[k]).spec_index() as int) && too_deep_past(
                g,
                items@[k].spec_index() as int,
                d,
            ),
        _ => true,
    });
}

/// Whether deciding rule body `n` from `start` can run out of the depth budget of options
/// `o`: past the end of the input by [`too_deep_past`], elsewhere by [`too_deep`].
pub open spec fn depth_exhausted(g: CheckedGrammar, s: Seq<char>, n: int, start: int, o: MatchOptions) -> bool {
    if start > s.len() {
        too_deep_past(g, n, depth_budget(o) as nat)
    } else {
        too_deep(g, s, n, start, depth_budget(o) as nat)
    }
}

/// Whether a match of the rule `name` from `start` owes an answer: the rule is usable, its
/// search cannot run out of depth, no step limit is set, and memoization is off, so that the
/// in-progress guard never fires.
pub open spec fn answer_owed(g: CheckedGrammar, s: Seq<char>, name: Seq<char>, start: int, o: MatchOptions, m: bool) -> bool {
    &&& exists|i: int|
        start_usable(g, name, i) && !depth_exhausted(g, s, g.spec_rules()[i].body.spec_index() as int, start, o)
    &&& o.max_steps is None
    &&& !m
}

/// Whether `v` is exactly the set of ends of node `n` from `p`, as an increasing list.
pub open spec fn exact(g: CheckedGrammar, s: Seq<char>, n: int, p: int, v: Seq<usize>) -> bool {
    &&& increasing(v)
    &&& all_at_most(v, s.len() as int)
    &&& pset(v) == ends(g, s, n, p)
}

impl MemoTable {
    /// Every finished entry holds exactly the ends of its rule's body.
    spec fn ok(&self, g: CheckedGrammar, s: Seq<char>) -> bool {
        &&& self.per_rule@.len() == g.spec_rules().len()
        &&& forall|r: int, p: usize|
            0 <= r < self.per_rule@.len() && #[trigger] self.per_rule@[r]@.contains_key(p) ==> match self.per_rule@[r]@[p] {
                Memo::Done(v) => exact(g, s, g.spec_rules()[r].body.spec_index() as int, p as int, v@),
                Memo::InProgress => true,
            }
    }

    fn new(rules: usize) -> (t: MemoTable)
        ensures
            t.per_rule@.len() == rules,
            forall|r: int| 0 <= r < rules ==> (#[trigger] t.per_rule@[r])@ == Map::<usize, Memo>::empty(),
    {
        let mut per_rule: Vec<HashMap<usize, Memo>> = Vec::new();
        let mut i: usize = 0;
        while i < rules
            invariant
                i <= rules,
                per_rule@.len() == i,
                forall|r: int| 0 <= r < i ==> (#[trigger] per_rule@[r])@ == Map::<usize, Memo>::empty(),
            decreases rules - i,
        {
            per_rule.push(HashMap::new());
            i = i + 1;
        }
        MemoTable { per_rule }
    }

    /// What is recorded for rule `r` at `p`: nothing, in progress, or the ends.
    fn lookup(&self, r: usize, p: usize, Ghost(g): Ghost<CheckedGrammar>, Ghost(s): Ghost<Seq<char>>) -> (m: Option<Option<Vec<usize>>>)
        requires
            self.ok(g, s),
            r < self.per_rule@.len(),
        ensures
            m matches Some(Some(v)) ==> exact(g, s, g.spec_rules()[r as int].body.spec_index() as int, p as int, v@),
            m is None <==> !self.per_rule@[r as int]@.contains_key(p),
            m matches Some(None) <==> (self.per_rule@[r as int]@.contains_key(p)
                && self.per_rule@[r as int]@[p] is InProgress),
            m matches Some(Some(v)) ==> self.per_rule@[r as int]@.contains_key(p) && (
            self.per_rule@[r as int]@[p] matches Memo::Done(w) && v@ == w@),
    {
        match self.per_rule[r].get(&p) {
            None => None,
            Some(Memo::InProgress) => Some(None),
            Some(Memo::Done(v)) => {
                proof {
                    assert(self.per_rule@[r as int]@.contains_key(p));
                }
                Some(Some(copy_of(v)))
            },
        }
    }

    /// Records `entry` for rule `r` at `p`.
    fn record(&mut self, r: usize, p: usize, entry: Memo, Ghost(g): Ghost<CheckedGrammar>, Ghost(s): Ghost<Seq<char>>)
        requires
            old(self).ok(g, s),
            r < old(self).per_rule@.len(),
            entry matches Memo::Done(v) ==> exact(g, s, g.spec_rules()[r as int].body.spec_index() as int, p as int, v@),
        ensures
            final(self).ok(g, s),
            final(self).per_rule@.len() == old(self).per_rule@.len(),
            final(self).per_rule@[r as int]@ == old(self).per_rule@[r as int]@.insert(p, entry),
            forall|q: int| 0 <= q < old(self).per_rule@.len() && q != r ==> #[trigger] final(self).per_rule@[q]@ == old(self).per_rule@[q]@,
    {
        let ghost before = self.per_rule@;
        let mut m = self.per_rule.remove(r);
        m.insert(p, entry);
        self.per_rule.insert(r, m);
        proof {
            assert(self.per_rule@ =~= before.update(r as int, m));
            assert forall|q: int, x: usize|
                0 <= q < self.per_rule@.len() && #[trigger] self.per_rule@[q]@.contains_key(x) implies match self.per_rule@[q]@[x] {
                    Memo::Done(v) => exact(g, s, g.spec_rules()[q].body.spec_index() as int, x as int, v@),
                    Memo::InProgress => true,
                } by {
                if q != r {
                    assert(self.per_rule@[q] == before[q]);
                } else if x != p {
                    assert(self.per_rule@[q]@[x] == before[q]@[x]);
                }
            }
        }
    }
}

/// Decides whether an input is in the language of a rule.
///
/// Bound to one input, and constructible only from a [`CheckedGrammar`], so there is no way
/// to recognize against a grammar whose structure was never validated.
pub struct Recognizer<'g, 'i> {
    grammar: &'g CheckedGrammar,
    src: &'i str,
    /// The input as scalar values. Positions index this, not the bytes.
    input: Vec<char>,
    steps: u64,
    options: MatchOptions,
    memo_on: bool,
}

impl<'g, 'i> Recognizer<'g, 'i> {
    #[verifier::type_invariant]
    spec fn inv(&self) -> bool {
        self.input@ == self.src@
    }

    /// The grammar this recognizer matches against.
    pub closed spec fn spec_grammar(&self) -> CheckedGrammar {
        *self.grammar
    }

    /// The input this recognizer is bound to, as scalar values.
    pub closed spec fn spec_input(&self) -> Seq<char> {
        self.input@
    }

    /// The resource limits in force.
    pub closed spec fn spec_options(&self) -> MatchOptions {
        self.options
    }

    /// Whether memoization is on.
    pub closed spec fn spec_memo_on(&self) -> bool {
        self.memo_on
    }

    /// The steps taken so far.
    pub closed spec fn spec_steps(&self) -> u64 {
        self.steps
    }

    /// Binds a recognizer to a grammar and one input.
    pub fn new(grammar: &'g CheckedGrammar, input: &'i str) -> (r: Self)
        ensures
            r.spec_grammar() == *grammar,
            r.spec_input() == input@,
            r.spec_options() == (MatchOptions { max_steps: None, max_depth: Some(DEFAULT_MAX_DEPTH) }),
            r.spec_memo_on(),
            r.spec_steps() == 0,
    {
        let chars = chars_of(input);
        Recognizer {
            grammar,
            src: input,
            input: chars,
            steps: 0,
            options: MatchOptions { max_steps: None, max_depth: Some(DEFAULT_MAX_DEPTH) },
            memo_on: true,
        }
    }

    /// Sets resource limits.
    pub fn with_options(self, options: MatchOptions) -> (r: Self)
        ensures
            r.spec_grammar() == self.spec_grammar(),
            r.spec_input() == self.spec_input(),
            r.spec_options() == options,
            r.spec_memo_on() == self.spec_memo_on(),
            r.spec_steps() == self.spec_steps(),
    {
        proof {
            use_type_invariant(&self);
        }
        Recognizer {
            grammar: self.grammar,
            src: self.src,
            input: self.input,
            steps: self.steps,
            options,
            memo_on: self.memo_on,
        }
    }

    /// The input this recognizer is bound to.
    pub fn input(&self) -> (s: &'i str)
        ensures
            s@ == self.spec_input(),
    {
        proof {
            use_type_invariant(self);
        }
        self.src
    }

    /// How many steps have been taken: one per repetition iteration and one per rule body
    /// evaluated, over this recognizer's whole life.
    ///
    /// This is the counter [`MatchOptions::max_steps`] limits.
    pub fn steps(&self) -> (n: u64)
        ensures
            n == self.spec_steps(),
    {
        self.steps
    }

    /// Turns the memo table off. Memoization changes the work done and nothing else.
    pub fn without_memoization(self) -> (r: Self)
        ensures
            r.spec_grammar() == self.spec_grammar(),
            r.spec_input() == self.spec_input(),
            r.spec_options() == self.spec_options(),
            !r.spec_memo_on(),
            r.spec_steps() == self.spec_steps(),
    {
        proof {
            use_type_invariant(&self);
        }
        Recognizer {
            grammar: self.grammar,
            src: self.src,
            input: self.input,
            steps: self.steps,
            options: self.options,
            memo_on: false,
        }
    }

    /// What the matching functions keep unchanged.
    spec fn same_setup(&self, other: &Self) -> bool {
        &&& self.grammar == other.grammar
        &&& self.input@ == other.input@
        &&& self.options == other.options
        &&& self.memo_on == other.memo_on
    }

    /// Counts one step, and stops if that exceeds the limit.
    fn step(&mut self) -> (r: Result<(), MatchError>)
        ensures
            final(self).same_setup(old(self)),
            final(self).steps >= old(self).steps,
            r is Err ==> r == Err::<(), MatchError>(MatchError::StepLimit),
            r is Err ==> old(self).options.max_steps is Some,
            final(self).steps == (if old(self).steps < u64::MAX {
                old(self).steps + 1
            } else {
                old(self).steps as int
            }),
            r is Err <==> (old(self).options.max_steps matches Some(limit) && final(self).steps > limit),
    {
        proof {
            use_type_invariant(&*self);
        }
        if self.steps < u64::MAX {
            self.steps = self.steps + 1;
        }
        match self.options.max_steps {
            Some(limit) => {
                if self.steps > limit {
                    return Err(MatchError::StepLimit);
                }
            },
            None => {},
        }
        Ok(())
    }
}

impl<'g, 'i> Recognizer<'g, 'i> {
    /// Whether `node` matches at a position past the end of the input, following rule
    /// references at most `depth` deep. Nothing is read there, so no terminal matches and no
    /// memo entry or step is needed: each node is decided by its children alone.
    fn passes_past_end(&self, node: NodeId, depth: usize) -> (r: Result<bool, MatchError>)
        requires
            node.spec_index() < self.grammar.spec_nodes().len(),
        ensures
            r matches Ok(b) ==> (b <==> skips_past(*self.grammar, node.spec_index() as int)),
            r matches Err(e) ==> e is DepthLimit,
            r is Err ==> too_deep_past(*self.grammar, node.spec_index() as int, depth as nat),
        decreases depth, self.grammar.spec_nodes().len() - node.spec_index(),
    {
        proof {
            use_type_invariant(self.grammar);
        }
        let grammar = self.grammar;
        let ghost g = *grammar;
        let ghost n = node.spec_index() as int;
        proof {
            lemma_children_below(g, n);
        }
        match grammar.node(node) {
            Node::Alt { branches } => {
                let mut b: usize = 0;
                proof {
                    assert forall|bb: int| 0 <= bb < branches@.len() implies n < (#[trigger] branches@[bb]).spec_index()
                        < g.spec_nodes().len() by {
                        assert(below(g, n, branches@[bb].spec_index() as int));
                    }
                }
                while b < branches.len()
                    invariant
                        g == *self.grammar,
                        g.wf(),
                        n == node.spec_index(),
                        0 <= n < g.spec_nodes().len(),
                        g.spec_nodes()[n] == (Node::Alt { branches: *branches }),
                        forall|bb: int|
                            0 <= bb < branches@.len() ==> n < (#[trigger] branches@[bb]).spec_index() < g.spec_nodes().len(),
                        b <= branches@.len(),
                        forall|bb: int| 0 <= bb < b ==> !skips_past(g, #[trigger] branches@[bb].spec_index() as int),
                    decreases branches@.len() - b,
                {
                    let found = match self.passes_past_end(branches[b], depth) {
                        Ok(f) => f,
                        Err(e) => {
                            proof {
                                assert(below(g, n, branches@[b as int].spec_index() as int));
                                lemma_past_alt(g, n, *branches, b as int, depth as nat);
                            }
                            return Err(e);
                        },
                    };
                    if found {
                        proof {
                            let h = choose|h: nat| #[trigger] passes_past(g, branches@[b as int].spec_index() as int, h);
                            assert(wit(b as int));
                            assert(passes_past(g, n, h));
                        }
                        return Ok(true);
                    }
                    b = b + 1;
                }
                proof {
                    assert forall|h: nat| !#[trigger] passes_past(g, n, h) by {
                        if passes_past(g, n, h) {
                            let bb = choose|bb: int|
                                #[trigger] wit(bb) && 0 <= bb < branches@.len() && below(g, n, branches@[bb].spec_index() as int)
                                    && passes_past(g, branches@[bb].spec_index() as int, h);
                            assert(skips_past(g, branches@[bb].spec_index() as int));
                        }
                    }
                }
                Ok(false)
            },
            Node::Concat { items } => {
                let mut k: usize = 0;
                let ghost mut hk: nat = 0;
                proof {
                    assert(items_of(g, n) == items@);
                    assert forall|bb: int| 0 <= bb < items@.len() implies n < (#[trigger] items@[bb]).spec_index()
                        < g.spec_nodes().len() by {
                        assert(below(g, n, items@[bb].spec_index() as int));
                    }
                }
                while k < items.len()
                    invariant
                        g == *self.grammar,
                        g.wf(),
                        n == node.spec_index(),
                        0 <= n < g.spec_nodes().len(),
                        g.spec_nodes()[n] == (Node::Concat { items: *items }),
                        items_of(g, n) == items@,
                        forall|bb: int|
                            0 <= bb < items@.len() ==> n < (#[trigger] items@[bb]).spec_index() < g.spec_nodes().len(),
                        k <= items@.len(),
                        passes_items_past(g, n, k as int, hk),
                    decreases items@.len() - k,
                {
                    let item = items[k];
                    let passes = match self.passes_past_end(item, depth) {
                        Ok(f) => f,
                        Err(e) => {
                            proof {
                                assert(below(g, n, items@[k as int].spec_index() as int));
                                lemma_past_concat(g, n, *items, k as int, depth as nat);
                            }
                            return Err(e);
                        },
                    };
                    if !passes {
                        proof {
                            assert forall|h: nat| !#[trigger] passes_past(g, n, h) by {
                                if passes_past(g, n, h) {
                                    lemma_items_past_prefix(g, n, items@.len() as int, k + 1, h);
                                    assert(passes_past(g, item.spec_index() as int, h));
                                }
                            }
                        }
                        return Ok(false);
                    }
                    proof {
                        let h = choose|h: nat| #[trigger] passes_past(g, item.spec_index() as int, h);
                        let m: nat = if h < hk { hk } else { h };
                        lemma_items_passes_mono(g, n, k as int, hk, m);
                        lemma_passes_mono(g, item.spec_index() as int, h, m);
                        hk = m;
                    }
                    k = k + 1;
                }
                proof {
                    assert(passes_past(g, n, hk));
                }
                Ok(true)
            },
            Node::Repeat { repeat, body, .. } => {
                if repeat.min == 0 {
                    proof {
                        assert(passes_past(g, n, 0));
                    }
                    return Ok(true);
                }
                let found = match self.passes_past_end(*body, depth) {
                    Ok(f) => f,
                    Err(e) => {
                        proof {
                            assert(too_deep_past(g, n, depth as nat));
                        }
                        return Err(e);
                    },
                };
                proof {
                    if found {
                        let h = choose|h: nat| #[trigger] passes_past(g, body.spec_index() as int, h);
                        assert(passes_past(g, n, h));
                    } else {
                        assert forall|h: nat| !#[trigger] passes_past(g, n, h) by {
                            if passes_past(g, n, h) {
                                assert(passes_past(g, body.spec_index() as int, h));
                            }
                        }
                    }
                }
                Ok(found)
            },
            Node::Optional { .. } => {
                proof {
                    assert(passes_past(g, n, 0));
                }
                Ok(true)
            },
            Node::RuleRef { .. } => {
                proof {
                    assert(crate::check::node_ok(g.spec_nodes(), g.spec_resolved(), g.spec_names(), g.spec_user_rules(), g.spec_user_nodes(), n));
                }
                let target = match grammar.target(node) {
                    Some(t) => t,
                    None => {
                        return Ok(false);
                    },
                };
                if depth == 0 {
                    return Err(MatchError::DepthLimit);
                }
                let _ = grammar.rule_index(target);
                let body = grammar.rule_by_id(target).body;
                let found = match self.passes_past_end(body, depth - 1) {
                    Ok(f) => f,
                    Err(e) => {
                        proof {
                            assert(too_deep_past(g, n, depth as nat));
                        }
                        return Err(e);
                    },
                };
                proof {
                    if found {
                        let h = choose|h: nat| #[trigger] passes_past(g, body.spec_index() as int, h);
                        assert(passes_past(g, n, h + 1));
                    } else {
                        assert forall|h: nat| !#[trigger] passes_past(g, n, h) by {
                            if passes_past(g, n, h) {
                                assert(passes_past(g, body.spec_index() as int, (h - 1) as nat));
                            }
                        }
                    }
                }
                Ok(found)
            },
            _ => {
                proof {
                    assert forall|h: nat| !#[trigger] passes_past(g, n, h) by {}
                }
                Ok(false)
            },
        }
    }
}

impl<'g, 'i> Recognizer<'g, 'i> {
    /// Whether this recognizer matches `g` against `s` with options `o` and memoization `m`.
    spec fn setup_is(&self, g: CheckedGrammar, s: Seq<char>, o: MatchOptions, m: bool) -> bool {
        &&& *self.grammar == g
        &&& self.input@ == s
        &&& self.options == o
        &&& self.memo_on == m
    }

    /// The end positions of `node`, starting at `pos`.
    fn match_node(&mut self, memo: &mut MemoTable, node: NodeId, pos: usize, depth: usize) -> (r: Result<Vec<usize>, MatchError>)
        requires
            old(memo).ok(*old(self).grammar, old(self).input@),
            node.spec_index() < old(self).grammar.spec_nodes().len(),
            pos <= old(self).input@.len(),
        ensures
            final(self).same_setup(old(self)),
            final(self).steps >= old(self).steps,
            final(memo).ok(*old(self).grammar, old(self).input@),
            r matches Ok(v) ==> exact(*old(self).grammar, old(self).input@, node.spec_index() as int, pos as int, v@),
            r matches Err(e) ==> limit_error(e, old(self).options, old(self).memo_on, final(self).steps),
            r matches Err(e) ==> (e is DepthLimit ==> too_deep(*old(self).grammar, old(self).input@, node.spec_index() as int, pos as int, depth as nat)),
        decreases depth, old(self).grammar.spec_nodes().len() - node.spec_index(), 1nat,
    {
        proof {
            use_type_invariant(&*self);
            use_type_invariant(self.grammar);
        }
        let grammar = self.grammar;
        let ghost g = *grammar;
        let ghost s = self.input@;
        let ghost o = self.options;
        let ghost m = self.memo_on;
        let ghost n = node.spec_index() as int;
        proof {
            lemma_children_below(g, n);
        }
        match grammar.node(node) {
            Node::Alt { branches } => {
                proof {
                    assert(crate::check::node_ok(g.spec_nodes(), g.spec_resolved(), g.spec_names(), g.spec_user_rules(), g.spec_user_nodes(), n));
                }
                let mut acc: Vec<usize> = Vec::new();
                let mut b: usize = 0;
                while b < branches.len()
                    invariant
                        self.setup_is(g, s, o, m),
                        self.same_setup(old(self)),
                self.steps >= old(self).steps,
                        self.steps >= old(self).steps,
                        memo.ok(g, s),
                        n == node.spec_index(),
                memo.ok(g, s),
                        g.wf(),
                        g.spec_nodes()[n] == (Node::Alt { branches: *branches }),
                        forall|bb: int| 0 <= bb < branches@.len() ==> n < (#[trigger] branches@[bb]).spec_index() < g.spec_nodes().len(),
                        0 <= n < g.spec_nodes().len(),
                        pos <= s.len(),
                        b <= branches@.len(),
                        increasing(acc@),
                        all_at_most(acc@, s.len() as int),
                        forall|j: int| pset(acc@).contains(j) <==> exists|bb: int|
                            0 <= bb < b && #[trigger] reaches(g, s, branches@[bb].spec_index() as int, pos as int, j),
                    decreases branches@.len() - b,
                {
                    assert(n < branches@[b as int].spec_index());
                    let e = match self.match_node(memo, branches[b], pos, depth) {
                        Ok(e) => e,
                        Err(err) => {
                            proof {
                                if err is DepthLimit {
                                    assert(below(g, n, branches@[b as int].spec_index() as int));
                                    lemma_deep_alt(g, s, n, *branches, b as int, pos as int, depth as nat);
                                }
                            }
                            return Err(err);
                        },
                    };
                    let ghost before = acc@;
                    acc = union(&acc, &e);
                    proof {
                        assert forall|j: int| pset(acc@).contains(j) <==> exists|bb: int|
                            0 <= bb < b + 1 && #[trigger] reaches(g, s, branches@[bb].spec_index() as int, pos as int, j) by {
                            if pset(e@).contains(j) {
                                assert(reaches(g, s, branches@[b as int].spec_index() as int, pos as int, j));
                            }
                            if exists|bb: int| 0 <= bb < b + 1 && #[trigger] reaches(g, s, branches@[bb].spec_index() as int, pos as int, j) {
                                let bb = choose|bb: int| 0 <= bb < b + 1 && #[trigger] reaches(g, s, branches@[bb].spec_index() as int, pos as int, j);
                                if bb == b {
                                    assert(ends(g, s, branches@[b as int].spec_index() as int, pos as int).contains(j));
                                }
                            }
                        }
                        assert forall|i: int| 0 <= i < acc@.len() implies #[trigger] acc@[i] <= s.len() by {
                            assert(pset(acc@).contains(acc@[i] as int));
                            if pset(e@).contains(acc@[i] as int) {
                                let k = choose|k: int| 0 <= k < e@.len() && #[trigger] e@[k] as int == acc@[i] as int;
                            } else {
                                let k = choose|k: int| 0 <= k < before.len() && #[trigger] before[k] as int == acc@[i] as int;
                            }
                        }
                    }
                    b = b + 1;
                }
                proof {
                    assert(pset(acc@) =~= ends(g, s, n, pos as int)) by {
                        assert forall|j: int| pset(acc@).contains(j) == ends(g, s, n, pos as int).contains(j) by {
                            lemma_alt_ends(g, s, n, pos as int, j);
                        }
                    }
                }
                Ok(acc)
            },
            Node::Concat { items } => {
                proof {
                    assert(crate::check::node_ok(g.spec_nodes(), g.spec_resolved(), g.spec_names(), g.spec_user_rules(), g.spec_user_nodes(), n));
                }
                let mut positions = single(pos);
                let mut k: usize = 0;
                proof {
                    lemma_items_zero(g, s, n, pos as int);
                }
                while k < items.len()
                    invariant
                        self.setup_is(g, s, o, m),
                        self.same_setup(old(self)),
                self.steps >= old(self).steps,
                        self.steps >= old(self).steps,
                        memo.ok(g, s),
                        n == node.spec_index(),
                memo.ok(g, s),
                        g.wf(),
                        g.spec_nodes()[n] == (Node::Concat { items: *items }),
                        forall|bb: int| 0 <= bb < items@.len() ==> n < (#[trigger] items@[bb]).spec_index() < g.spec_nodes().len(),
                        0 <= n < g.spec_nodes().len(),
                        pos <= s.len(),
                        k <= items@.len(),
                        increasing(positions@),
                        all_at_most(positions@, s.len() as int),
                        pset(positions@) == items_ends(g, s, n, k as int, pos as int),
                    decreases items@.len() - k,
                {
                    assert(n < items@[k as int].spec_index());
                    positions = match self.advance(memo, items[k], &positions, depth) {
                        Ok(v) => v,
                        Err(err) => {
                            proof {
                                if err is DepthLimit {
                                    let q = choose|q: int|
                                        pset(positions@).contains(q) && too_deep(g, s, items@[k as int].spec_index() as int, q, depth as nat);
                                    assert(below(g, n, items@[k as int].spec_index() as int));
                                    assert(items_ends(g, s, n, k as int, pos as int).contains(q));
                                    lemma_deep_concat(g, s, n, *items, k as int, pos as int, q, depth as nat);
                                }
                            }
                            return Err(err);
                        },
                    };
                    proof {
                        lemma_items_step(g, s, n, k as int, pos as int);
                    }
                    k = k + 1;
                }
                proof {
                    lemma_concat_ends(g, s, n, pos as int);
                }
                Ok(positions)
            },
            Node::Repeat { repeat, body, .. } => {
                assert(crate::language::below(g, n, body.spec_index() as int));
                self.match_repeat(memo, node, *repeat, *body, pos, depth)
            },
            Node::Optional { body } => {
                assert(crate::language::below(g, n, body.spec_index() as int));
                let e = match self.match_node(memo, *body, pos, depth) {
                    Ok(e) => e,
                    Err(err) => {
                        proof {
                            if err is DepthLimit {
                                assert(too_deep(g, s, n, pos as int, depth as nat));
                            }
                        }
                        return Err(err);
                    },
                };
                let one = single(pos);
                let r = union(&e, &one);
                proof {
                    lemma_optional_ends(g, s, n, pos as int);
                    assert(pset(r@) =~= ends(g, s, n, pos as int));
                    lemma_union_at_most(e@, one@, r@, s.len() as int);
                }
                Ok(r)
            },
            Node::RuleRef { name, .. } => {
                proof {
                    lemma_ref_ends(g, s, n, pos as int);
                    assert(crate::check::node_ok(g.spec_nodes(), g.spec_resolved(), g.spec_names(), g.spec_user_rules(), g.spec_user_nodes(), n));
                }
                let target = match grammar.target(node) {
                    Some(t) => t,
                    None => {
                        return Ok(Vec::new());
                    },
                };
                let r = grammar.rule_index(target);
                let body = grammar.rule_by_id(target).body;
                if self.memo_on {
                    match memo.lookup(r, pos, Ghost(g), Ghost(s)) {
                        Some(Some(v)) => {
                            return Ok(v);
                        },
                        Some(None) => {
                            return Err(MatchError::LeftRecursionDetected { rule: name.as_str().to_owned() });
                        },
                        None => {
                            memo.record(r, pos, Memo::InProgress, Ghost(g), Ghost(s));
                        },
                    }
                }
                self.step()?;
                if depth == 0 {
                    return Err(MatchError::DepthLimit);
                }
                let v = match self.match_node(memo, body, pos, depth - 1) {
                    Ok(v) => v,
                    Err(err) => {
                        proof {
                            if err is DepthLimit {
                                assert(too_deep(g, s, n, pos as int, depth as nat));
                            }
                        }
                        return Err(err);
                    },
                };
                if self.memo_on {
                    let kept = copy_of(&v);
                    memo.record(r, pos, Memo::Done(kept), Ghost(g), Ghost(s));
                }
                Ok(v)
            },
            Node::CharVal(value) => {
                let end = self.match_char_val(value, pos);
                proof {
                    assert(g.spec_nodes()[n] == Node::CharVal(*value));
                }
                Ok(self.terminal_ends(end, node, pos))
            },
            Node::NumVal { value, .. } => {
                let end = self.match_num_val(value, pos);
                Ok(self.terminal_ends(end, node, pos))
            },
            Node::ProseVal(_) => {
                proof {
                    assert(ends(g, s, n, pos as int) =~= Set::<int>::empty()) by {
                        assert forall|j: int| !ends(g, s, n, pos as int).contains(j) by {
                            lemma_terminal_ends(g, s, n, pos as int, j);
                        }
                    }
                    assert(pset(Seq::<usize>::empty()) =~= Set::<int>::empty());
                }
                Ok(Vec::new())
            },
        }
    }

    /// The end set of a terminal that matches up to `end`, if it matches at all.
    fn terminal_ends(&self, end: Option<usize>, node: NodeId, pos: usize) -> (v: Vec<usize>)
        requires
            node.spec_index() < self.grammar.spec_nodes().len(),
            pos <= self.input@.len(),
            (self.grammar.spec_nodes()[node.spec_index() as int] is CharVal || self.grammar.spec_nodes()[node.spec_index() as int] is NumVal),
            forall|j: int| derives(*self.grammar, self.input@, node.spec_index() as int, pos as int, j, 0)
                <==> (end matches Some(e) && j == e),
            end matches Some(e) ==> pos <= e <= self.input@.len(),
        ensures
            exact(*self.grammar, self.input@, node.spec_index() as int, pos as int, v@),
    {
        let ghost g = *self.grammar;
        let ghost s = self.input@;
        let ghost n = node.spec_index() as int;
        match end {
            Some(e) => {
                let v = single(e);
                proof {
                    assert(pset(v@) =~= ends(g, s, n, pos as int)) by {
                        assert forall|j: int| pset(v@).contains(j) == ends(g, s, n, pos as int).contains(j) by {
                            lemma_terminal_ends(g, s, n, pos as int, j);
                        }
                    }
                }
                v
            },
            None => {
                let v: Vec<usize> = Vec::new();
                proof {
                    assert(pset(v@) =~= ends(g, s, n, pos as int)) by {
                        assert forall|j: int| pset(v@).contains(j) == ends(g, s, n, pos as int).contains(j) by {
                            lemma_terminal_ends(g, s, n, pos as int, j);
                        }
                    }
                }
                v
            },
        }
    }
}

proof fn lemma_union_at_most(a: Seq<usize>, b: Seq<usize>, r: Seq<usize>, hi: int)
    requires
        all_at_most(a, hi),
        all_at_most(b, hi),
        pset(r) == pset(a).union(pset(b)),
    ensures
        all_at_most(r, hi),
{
    assert forall|i: int| 0 <= i < r.len() implies #[trigger] r[i] <= hi by {
        assert(pset(r).contains(r[i] as int));
        if pset(a).contains(r[i] as int) {
            let k = choose|k: int| 0 <= k < a.len() && #[trigger] a[k] as int == r[i] as int;
        } else {
            let k = choose|k: int| 0 <= k < b.len() && #[trigger] b[k] as int == r[i] as int;
        }
    }
}

impl<'g, 'i> Recognizer<'g, 'i> {
    /// Every position reachable by matching `node` once from each position of `from`.
    fn advance(&mut self, memo: &mut MemoTable, node: NodeId, from: &Vec<usize>, depth: usize) -> (r: Result<Vec<usize>, MatchError>)
        requires
            old(memo).ok(*old(self).grammar, old(self).input@),
            node.spec_index() < old(self).grammar.spec_nodes().len(),
            increasing(from@),
            all_at_most(from@, old(self).input@.len() as int),
        ensures
            final(self).same_setup(old(self)),
            final(self).steps >= old(self).steps,
            final(memo).ok(*old(self).grammar, old(self).input@),
            r matches Ok(v) ==> increasing(v@) && all_at_most(v@, old(self).input@.len() as int) && pset(v@)
                == step(*old(self).grammar, old(self).input@, node.spec_index() as int, pset(from@)),
            r matches Err(e) ==> limit_error(e, old(self).options, old(self).memo_on, final(self).steps),
            r matches Err(e) ==> (e is DepthLimit ==> exists|q: int|
                pset(from@).contains(q) && too_deep(*old(self).grammar, old(self).input@, node.spec_index() as int, q, depth as nat)),
        decreases depth, old(self).grammar.spec_nodes().len() - node.spec_index(), 2nat,
    {
        let ghost g = *self.grammar;
        let ghost s = self.input@;
        let ghost o = self.options;
        let ghost m = self.memo_on;
        let ghost n = node.spec_index() as int;
        let mut acc: Vec<usize> = Vec::new();
        let mut i: usize = 0;
        while i < from.len()
            invariant
                self.setup_is(g, s, o, m),
                self.same_setup(old(self)),
                self.steps >= old(self).steps,
                memo.ok(g, s),
                n == node.spec_index(),
                0 <= n < g.spec_nodes().len(),
                increasing(from@),
                all_at_most(from@, s.len() as int),
                i <= from@.len(),
                increasing(acc@),
                all_at_most(acc@, s.len() as int),
                forall|j: int| pset(acc@).contains(j) <==> exists|k: int|
                    0 <= k < i && #[trigger] ends(g, s, n, from@[k] as int).contains(j),
            decreases from@.len() - i,
        {
            let e = match self.match_node(memo, node, from[i], depth) {
                Ok(e) => e,
                Err(err) => {
                    proof {
                        if err is DepthLimit {
                            assert(pset(from@).contains(from@[i as int] as int));
                        }
                    }
                    return Err(err);
                },
            };
            let ghost before = acc@;
            acc = union(&acc, &e);
            proof {
                lemma_union_at_most(before, e@, acc@, s.len() as int);
                assert forall|j: int| pset(acc@).contains(j) <==> exists|k: int|
                    0 <= k < i + 1 && #[trigger] ends(g, s, n, from@[k] as int).contains(j) by {
                    if exists|k: int| 0 <= k < i + 1 && #[trigger] ends(g, s, n, from@[k] as int).contains(j) {
                        let k = choose|k: int| 0 <= k < i + 1 && #[trigger] ends(g, s, n, from@[k] as int).contains(j);
                        if k == i {
                            assert(pset(e@).contains(j));
                        }
                    }
                }
            }
            i = i + 1;
        }
        proof {
            assert(pset(acc@) =~= step(g, s, n, pset(from@))) by {
                assert forall|j: int| pset(acc@).contains(j) implies step(g, s, n, pset(from@)).contains(j) by {
                    let k = choose|k: int| 0 <= k < i && #[trigger] ends(g, s, n, from@[k] as int).contains(j);
                    assert(pset(from@).contains(from@[k] as int));
                }
                assert forall|j: int| step(g, s, n, pset(from@)).contains(j) implies pset(acc@).contains(j) by {
                    let p = choose|p: int| pset(from@).contains(p) && #[trigger] ends(g, s, n, p).contains(j);
                    let k = choose|k: int| 0 <= k < from@.len() && #[trigger] from@[k] as int == p;
                    assert(ends(g, s, n, from@[k] as int).contains(j));
                }
            }
        }
        Ok(acc)
    }

    /// Where a quoted string ends, if it matches at `pos`.
    fn match_char_val(&self, value: &CharVal, pos: usize) -> (r: Option<usize>)
        requires
            pos <= self.input@.len(),
        ensures
            match r {
                Some(e) => e == pos + value.value@.len() && e <= self.input@.len() && char_val_matches(
                    *value,
                    self.input@,
                    pos as int,
                    e as int,
                ),
                None => !(pos + value.value@.len() <= self.input@.len() && char_val_matches(
                    *value,
                    self.input@,
                    pos as int,
                    pos + value.value@.len(),
                )),
            },
    {
        let expected = chars_of(value.value.as_str());
        let len = self.input.len();
        if expected.len() > len - pos {
            return None;
        }
        let mut k: usize = 0;
        while k < expected.len()
            invariant
                len == self.input@.len(),
                expected@ == value.value@,
                pos + expected@.len() <= self.input@.len(),
                k <= expected@.len(),
                forall|t: int| 0 <= t < k ==> char_matches(*value, #[trigger] self.input@[pos + t], value.value@[t]),
            decreases expected@.len() - k,
        {
            let got = self.input[pos + k];
            let want = expected[k];
            let ok = if value.case_sensitive {
                got == want
            } else {
                chars_fold_eq(got, want)
            };
            if !ok {
                proof {
                    assert(!char_matches(*value, self.input@[pos + k as int], value.value@[k as int]));
                }
                return None;
            }
            k = k + 1;
        }
        Some(pos + expected.len())
    }

    /// Where a numeric terminal ends, if it matches at `pos`.
    fn match_num_val(&self, value: &NumVal, pos: usize) -> (r: Option<usize>)
        requires
            pos <= self.input@.len(),
        ensures
            forall|j: int| (pos <= j <= self.input@.len() && num_val_matches(*value, self.input@, pos as int, j))
                <==> (r matches Some(e) && j == e),
            r matches Some(e) ==> pos <= e <= self.input@.len(),
    {
        let len = self.input.len();
        match value {
            NumVal::Scalar(expected) => {
                if pos < len && code_of(self.input[pos]) == *expected {
                    Some(pos + 1)
                } else {
                    None
                }
            },
            NumVal::Range { lo, hi } => {
                if pos < len && *lo <= code_of(self.input[pos]) && code_of(self.input[pos]) <= *hi {
                    Some(pos + 1)
                } else {
                    None
                }
            },
            NumVal::Concat(values) => {
                if values.len() > len - pos {
                    return None;
                }
                let mut k: usize = 0;
                while k < values.len()
                    invariant
                        len == self.input@.len(),
                        *value == NumVal::Concat(*values),
                        pos + values@.len() <= self.input@.len(),
                        k <= values@.len(),
                        forall|t: int| 0 <= t < k ==> #[trigger] self.input@[pos + t] as int == values@[t],
                    decreases values@.len() - k,
                {
                    if code_of(self.input[pos + k]) != values[k] {
                        proof {
                            assert(self.input@[pos + k as int] as int != values@[k as int]);
                            assert forall|j: int| !(pos <= j <= self.input@.len() && num_val_matches(*value, self.input@, pos as int, j)) by {
                                if num_val_matches(*value, self.input@, pos as int, j) {
                                    assert(self.input@[pos as int + k as int] as int == values@[k as int]);
                                }
                            }
                        }
                        return None;
                    }
                    k = k + 1;
                }
                Some(pos + values.len())
            },
        }
    }
}

/// The scalar value of `c`.
fn code_of(c: char) -> (r: u64)
    ensures
        r as int == c as int,
{
    let x: u32 = c as u32;
    x as u64
}

/// Whether `count` is below the upper bound `max`, `None` being unbounded.
fn below_max(max: Option<u64>, count: u64) -> (r: bool)
    ensures
        r == (match max {
            Some(mx) => count < mx,
            None => true,
        }),
{
    match max {
        Some(mx) => count < mx,
        None => true,
    }
}

impl<'g, 'i> Recognizer<'g, 'i> {
    /// Repetition, in two phases.
    ///
    /// Phase 1 finds the positions reachable after exactly `min` copies; its early exit is
    /// *equality* of one step's result with the last, after which every further step gives the
    /// same positions, which bounds `1000000000*["a"]` to one iteration. Phase 2 extends the
    /// *frontier* of newly reached positions, not the whole result, so a position first
    /// reached at one count is not explored again at every later one.
    fn match_repeat(&mut self, memo: &mut MemoTable, node: NodeId, repeat: Repeat, body: NodeId, pos: usize, depth: usize) -> (r: Result<Vec<usize>, MatchError>)
        requires
            old(memo).ok(*old(self).grammar, old(self).input@),
            node.spec_index() < old(self).grammar.spec_nodes().len(),
            old(self).grammar.spec_nodes()[node.spec_index() as int] is Repeat,
            old(self).grammar.spec_nodes()[node.spec_index() as int]->Repeat_repeat == repeat,
            body_of(*old(self).grammar, node.spec_index() as int) == body.spec_index(),
            pos <= old(self).input@.len(),
        ensures
            final(self).same_setup(old(self)),
            final(self).steps >= old(self).steps,
            final(memo).ok(*old(self).grammar, old(self).input@),
            r matches Ok(v) ==> exact(*old(self).grammar, old(self).input@, node.spec_index() as int, pos as int, v@),
            r matches Err(e) ==> limit_error(e, old(self).options, old(self).memo_on, final(self).steps),
            r matches Err(e) ==> (e is DepthLimit ==> too_deep(*old(self).grammar, old(self).input@, node.spec_index() as int, pos as int, depth as nat)),
        decreases depth, old(self).grammar.spec_nodes().len() - node.spec_index(), 0nat,
    {
        proof {
            use_type_invariant(self.grammar);
        }
        let ghost g = *self.grammar;
        let ghost s = self.input@;
        let ghost o = self.options;
        let ghost m = self.memo_on;
        let ghost n = node.spec_index() as int;
        proof {
            crate::language::lemma_children_below(g, n);
            lemma_rep_zero(g, s, n, pos as int);
            assert(crate::check::node_ok(g.spec_nodes(), g.spec_resolved(), g.spec_names(), g.spec_user_rules(), g.spec_user_nodes(), n));
            assert(repeat.spec_is_valid());
        }
        let mut current = single(pos);
        let mut k: u64 = 0;
        let mut fixed = false;
        while k < repeat.min && !fixed
            invariant
                self.setup_is(g, s, o, m),
                self.same_setup(old(self)),
                self.steps >= old(self).steps,
                memo.ok(g, s),
                n == node.spec_index(),
                g.wf(),
                0 <= n < g.spec_nodes().len(),
                g.spec_nodes()[n] is Repeat,
                g.spec_nodes()[n]->Repeat_repeat == repeat,
                body_of(g, n) == body.spec_index(),
                crate::language::below(g, n, body.spec_index() as int),
                pos <= s.len(),
                k <= repeat.min,
                increasing(current@),
                all_at_most(current@, s.len() as int),
                pset(current@) == rep_ends(g, s, n, k as nat, pos as int),
                fixed ==> rep_ends(g, s, n, repeat.min as nat, pos as int) == rep_ends(g, s, n, k as nat, pos as int),
            decreases repeat.min - k, if fixed { 0int } else { 1int },
        {
            self.step()?;
            let next = self.advance(memo, body, &current, depth)?;
            proof {
                lemma_rep_step(g, s, n, k as nat, pos as int);
            }
            if next.len() == 0 {
                proof {
                    assert(pset(next@) =~= Set::<int>::empty());
                    assert forall|j: int| !ends(g, s, n, pos as int).contains(j) by {
                        lemma_repeat_ends(g, s, n, pos as int, j);
                        if ends(g, s, n, pos as int).contains(j) {
                            let c = choose|c: nat| crate::language::count_allowed(repeat, c) && #[trigger] rep_ends(g, s, n, c, pos as int).contains(j);
                            lemma_rep_empty(g, s, n, pos as int, (k + 1) as nat, c);
                        }
                    }
                    assert(pset(Seq::<usize>::empty()) =~= ends(g, s, n, pos as int));
                }
                return Ok(Vec::new());
            }
            if same(&next, &current) {
                proof {
                    lemma_rep_fix(g, s, n, pos as int, k as nat, repeat.min as nat);
                }
                fixed = true;
            } else {
                current = next;
                k = k + 1;
            }
        }
        let mut result = copy_of(&current);
        let mut frontier = current;
        let mut count: u64 = repeat.min;
        let ghost mut gc: nat = repeat.min as nat;
        proof {
            assert(pset(result@) =~= rep_range(g, s, n, gc, gc + 1, pos as int)) by {
                assert forall|j: int| rep_range(g, s, n, gc, gc + 1, pos as int).contains(j) implies pset(result@).contains(j) by {
                    let c = choose|c: nat| gc <= c < gc + 1 && #[trigger] rep_ends(g, s, n, c, pos as int).contains(j);
                }
                assert forall|j: int| pset(result@).contains(j) implies rep_range(g, s, n, gc, gc + 1, pos as int).contains(j) by {
                    assert(rep_ends(g, s, n, gc, pos as int).contains(j));
                }
            }
            assert(rep_range(g, s, n, gc, gc, pos as int) =~= Set::<int>::empty());
        }
        while below_max(repeat.max, count) && frontier.len() > 0
            invariant
                self.setup_is(g, s, o, m),
                self.same_setup(old(self)),
                self.steps >= old(self).steps,
                memo.ok(g, s),
                n == node.spec_index(),
                g.wf(),
                0 <= n < g.spec_nodes().len(),
                g.spec_nodes()[n] is Repeat,
                g.spec_nodes()[n]->Repeat_repeat == repeat,
                body_of(g, n) == body.spec_index(),
                crate::language::below(g, n, body.spec_index() as int),
                pos <= s.len(),
                repeat.min <= gc,
                repeat.max matches Some(mx) ==> count == gc && gc <= mx,
                increasing(result@),
                all_at_most(result@, s.len() as int),
                pset(result@) == rep_range(g, s, n, repeat.min as nat, gc + 1, pos as int),
                increasing(frontier@),
                all_at_most(frontier@, s.len() as int),
                pset(frontier@).subset_of(rep_ends(g, s, n, gc, pos as int)),
                rep_ends(g, s, n, gc, pos as int).subset_of(
                    pset(frontier@).union(rep_range(g, s, n, repeat.min as nat, gc, pos as int)),
                ),
            decreases s.len() + 1 - result@.len(), frontier@.len(),
        {
            self.step()?;
            let reached = self.advance(memo, body, &frontier, depth)?;
            let fresh = minus(&reached, &result);
            let ghost old_result = result@;
            let ghost old_frontier = frontier@;
            let merged = union(&result, &fresh);
            proof {
                let u = rep_range(g, s, n, repeat.min as nat, gc + 1, pos as int);
                let below_gc = rep_range(g, s, n, repeat.min as nat, gc, pos as int);
                let body_i = body.spec_index() as int;
                lemma_rep_step(g, s, n, gc, pos as int);
                lemma_step_mono(g, s, body_i, pset(old_frontier), rep_ends(g, s, n, gc, pos as int));
                lemma_step_mono(g, s, body_i, rep_ends(g, s, n, gc, pos as int), pset(old_frontier).union(below_gc));
                lemma_step_union(g, s, body_i, pset(old_frontier), below_gc);
                lemma_step_range(g, s, n, repeat.min as nat, gc, pos as int);
                assert(rep_range(g, s, n, repeat.min as nat + 1, gc + 1, pos as int).subset_of(u)) by {
                    assert forall|j: int| rep_range(g, s, n, repeat.min as nat + 1, gc + 1, pos as int).contains(j) implies u.contains(j) by {
                        let c = choose|c: nat| repeat.min + 1 <= c < gc + 1 && #[trigger] rep_ends(g, s, n, c, pos as int).contains(j);
                    }
                }
                let nxt = rep_ends(g, s, n, gc + 1, pos as int);
                assert(pset(merged@) =~= rep_range(g, s, n, repeat.min as nat, gc + 2, pos as int)) by {
                    assert forall|j: int| pset(merged@).contains(j) implies rep_range(g, s, n, repeat.min as nat, gc + 2, pos as int).contains(j) by {
                        if u.contains(j) {
                            let c = choose|c: nat| repeat.min <= c < gc + 1 && #[trigger] rep_ends(g, s, n, c, pos as int).contains(j);
                        } else {
                            assert(nxt.contains(j));
                        }
                    }
                    assert forall|j: int| rep_range(g, s, n, repeat.min as nat, gc + 2, pos as int).contains(j) implies pset(merged@).contains(j) by {
                        let c = choose|c: nat| repeat.min <= c < gc + 2 && #[trigger] rep_ends(g, s, n, c, pos as int).contains(j);
                        if c < gc + 1 {
                            assert(u.contains(j));
                        } else {
                            assert(nxt.contains(j));
                        }
                    }
                }
                assert forall|i: int| 0 <= i < fresh@.len() implies #[trigger] fresh@[i] <= s.len() by {
                    assert(pset(fresh@).contains(fresh@[i] as int));
                    let k2 = choose|k2: int| 0 <= k2 < reached@.len() && #[trigger] reached@[k2] as int == fresh@[i] as int;
                }
                assert(pset(old_result).disjoint(pset(fresh@)));
                lemma_union_at_most(old_result, fresh@, merged@, s.len() as int);
                lemma_increasing_len(merged@, 0, s.len() as int);
                assert(pset(fresh@).subset_of(nxt));
                assert(nxt.subset_of(pset(fresh@).union(u)));
            }
            result = merged;
            frontier = fresh;
            if count < u64::MAX {
                count = count + 1;
            }
            proof {
                gc = gc + 1;
            }
        }
        proof {
            let x = rep_range(g, s, n, repeat.min as nat, gc + 1, pos as int);
            let below_gc = rep_range(g, s, n, repeat.min as nat, gc, pos as int);
            assert(pset(result@) =~= ends(g, s, n, pos as int)) by {
                assert forall|j: int| pset(result@).contains(j) implies ends(g, s, n, pos as int).contains(j) by {
                    let c = choose|c: nat| repeat.min <= c < gc + 1 && #[trigger] rep_ends(g, s, n, c, pos as int).contains(j);
                    lemma_repeat_ends(g, s, n, pos as int, j);
                }
                if frontier@.len() == 0 {
                    assert(pset(frontier@) =~= Set::<int>::empty());
                    let body_i = body.spec_index() as int;
                    lemma_step_range(g, s, n, repeat.min as nat, gc + 1, pos as int);
                    lemma_step_range(g, s, n, repeat.min as nat, gc, pos as int);
                    lemma_rep_step(g, s, n, gc, pos as int);
                    lemma_step_mono(g, s, body_i, rep_ends(g, s, n, gc, pos as int), below_gc);
                    assert(step(g, s, body_i, x).subset_of(x)) by {
                        assert forall|j: int| step(g, s, body_i, x).contains(j) implies x.contains(j) by {
                            assert(rep_range(g, s, n, repeat.min as nat + 1, gc + 2, pos as int).contains(j));
                            let c = choose|c: nat| repeat.min + 1 <= c < gc + 2 && #[trigger] rep_ends(g, s, n, c, pos as int).contains(j);
                            if c == gc + 1 {
                                assert(step(g, s, body_i, below_gc).contains(j));
                                assert(rep_range(g, s, n, repeat.min as nat + 1, gc + 1, pos as int).contains(j));
                                let c2 = choose|c2: nat| repeat.min + 1 <= c2 < gc + 1 && #[trigger] rep_ends(g, s, n, c2, pos as int).contains(j);
                            }
                        }
                    }
                    assert(rep_ends(g, s, n, repeat.min as nat, pos as int).subset_of(x)) by {
                        assert forall|j: int| rep_ends(g, s, n, repeat.min as nat, pos as int).contains(j) implies x.contains(j) by {}
                    }
                    assert forall|j: int| ends(g, s, n, pos as int).contains(j) implies pset(result@).contains(j) by {
                        lemma_repeat_ends(g, s, n, pos as int, j);
                        let c = choose|c: nat| crate::language::count_allowed(repeat, c) && #[trigger] rep_ends(g, s, n, c, pos as int).contains(j);
                        lemma_rep_closed(g, s, n, pos as int, repeat.min as nat, x, c);
                    }
                } else {
                    assert forall|j: int| ends(g, s, n, pos as int).contains(j) implies pset(result@).contains(j) by {
                        lemma_repeat_ends(g, s, n, pos as int, j);
                        let c = choose|c: nat| crate::language::count_allowed(repeat, c) && #[trigger] rep_ends(g, s, n, c, pos as int).contains(j);
                    }
                }
            }
        }
        Ok(result)
    }
}

impl<'g, 'i> Recognizer<'g, 'i> {
    /// Every position at which `rule` can finish, starting from position `start`.
    ///
    /// The full answer, not the longest or the first: an ambiguous rule reports every ending
    /// it has. The start rule is checked before any input is examined: an unknown rule, or
    /// one that reaches a prose value or an unrepresentable terminal, is an error and never a
    /// "does not match". A resource limit is an error too. A start past the end of the input
    /// reads nothing: the rule finishes there, at the start itself, exactly when it can match
    /// without reading (see [`finishes`]).
    pub fn end_positions(&mut self, rule: &str, start: usize) -> (r: Result<BTreeSet<usize>, MatchError>)
        ensures
            final(self).spec_grammar() == old(self).spec_grammar(),
            final(self).spec_input() == old(self).spec_input(),
            final(self).spec_options() == old(self).spec_options(),
            final(self).spec_memo_on() == old(self).spec_memo_on(),
            final(self).spec_steps() >= old(self).spec_steps(),
            match r {
                Ok(ends) => exists|i: int|
                    start_usable(old(self).spec_grammar(), rule@, i) && forall|j: usize|
                        ends@.contains(j) <==> finishes(
                            old(self).spec_grammar(),
                            old(self).spec_input(),
                            old(self).spec_grammar().spec_rules()[i].body.spec_index() as int,
                            start as int,
                            j as int,
                        ),
                Err(e) => gate_error(old(self).spec_grammar(), rule@, e) || exists|i: int|
                    start_usable(old(self).spec_grammar(), rule@, i) && limit_error(
                        e,
                        old(self).spec_options(),
                        old(self).spec_memo_on(),
                        final(self).spec_steps(),
                    ),
            },
            r matches Err(e) ==> (e is DepthLimit ==> exists|i: int|
                start_usable(old(self).spec_grammar(), rule@, i) && depth_exhausted(
                    old(self).spec_grammar(),
                    old(self).spec_input(),
                    old(self).spec_grammar().spec_rules()[i].body.spec_index() as int,
                    start as int,
                    old(self).spec_options(),
                )),
            answer_owed(
                old(self).spec_grammar(),
                old(self).spec_input(),
                rule@,
                start as int,
                old(self).spec_options(),
                old(self).spec_memo_on(),
            ) ==> r is Ok,
    {
        proof {
            use_type_invariant(&*self);
            use_type_invariant(self.grammar);
        }
        let grammar = self.grammar;
        let ghost g = *grammar;
        let ghost s0 = self.input@;
        let ghost o0 = self.options;
        let ghost owed = answer_owed(g, s0, rule@, start as int, o0, self.memo_on);
        match grammar.can_recognize(rule) {
            Ok(()) => {},
            Err(e) => {
                proof {
                    if owed {
                        let w = choose|w: int|
                            start_usable(g, rule@, w) && !depth_exhausted(g, s0, g.spec_rules()[w].body.spec_index() as int, start as int, o0);
                        lemma_usable_not_gated(g, rule@, w, e);
                    }
                }
                return Err(e);
            },
        }
        let i = match grammar.rule_position(rule) {
            Some(i) => i,
            None => {
                return Err(MatchError::UnknownRule(rule.to_owned()));
            },
        };
        proof {
            assert(names_rule(g, rule@, i as int));
            let w = choose|w: int| start_usable(g, rule@, w);
            assert(w == i as int) by {
                if w < i {
                } else if i < w {
                }
            }
        }
        let body = grammar.rule_at(i).body;
        let mut memo = MemoTable::new(grammar.rule_count());
        let depth = match self.options.max_depth {
            Some(d) => d,
            None => usize::MAX,
        };
        proof {
            assert(depth == depth_budget(o0));
            if owed {
                let w = choose|w: int|
                    start_usable(g, rule@, w) && !depth_exhausted(g, s0, g.spec_rules()[w].body.spec_index() as int, start as int, o0);
                lemma_names_rule_unique(g, rule@, w, i as int);
            }
        }
        if start > self.input.len() {
            let found = match self.passes_past_end(body, depth) {
                Ok(f) => f,
                Err(e) => {
                    proof {
                        assert(start_usable(g, rule@, i as int));
                        assert(depth_exhausted(g, s0, g.spec_rules()[i as int].body.spec_index() as int, start as int, o0));
                        assert(g == old(self).spec_grammar());
                        assert(s0 == old(self).spec_input());
                        assert(o0 == old(self).spec_options());
                        assert(start_usable(old(self).spec_grammar(), rule@, i as int));
                        assert(exists|w: int|
                            start_usable(old(self).spec_grammar(), rule@, w) && depth_exhausted(
                                old(self).spec_grammar(),
                                old(self).spec_input(),
                                old(self).spec_grammar().spec_rules()[w].body.spec_index() as int,
                                start as int,
                                old(self).spec_options(),
                            ));
                    }
                    return Err(e);
                },
            };
            let mut past: Vec<usize> = Vec::new();
            if found {
                past.push(start);
            }
            let ends = set_of(&past);
            proof {
                assert forall|j: usize| ends@.contains(j) <==> finishes(g, self.input@, body.spec_index() as int, start as int, j as int) by {
                    assert(ends@.contains(j) <==> past@.contains(j));
                    if found {
                        assert(past@ =~= seq![start]);
                        assert(past@.contains(j) <==> j == start) by {
                            if j == start {
                                assert(past@[0] == j);
                            }
                        }
                    } else {
                        assert(past@ =~= Seq::<usize>::empty());
                        assert(!past@.contains(j));
                    }
                }
                assert(start_usable(g, rule@, i as int));
                assert(body == g.spec_rules()[i as int].body);
                assert(g == old(self).spec_grammar() && self.input@ == old(self).spec_input());
            }
            return Ok(ends);
        }
        let v = match self.match_node(&mut memo, body, start, depth) {
            Ok(v) => v,
            Err(e) => {
                proof {
                    assert(start_usable(g, rule@, i as int));
                    if e is DepthLimit {
                        assert(depth_exhausted(g, s0, g.spec_rules()[i as int].body.spec_index() as int, start as int, o0));
                        assert(g == old(self).spec_grammar());
                        assert(s0 == old(self).spec_input());
                        assert(o0 == old(self).spec_options());
                        assert(start_usable(old(self).spec_grammar(), rule@, i as int));
                        assert(exists|w: int|
                            start_usable(old(self).spec_grammar(), rule@, w) && depth_exhausted(
                                old(self).spec_grammar(),
                                old(self).spec_input(),
                                old(self).spec_grammar().spec_rules()[w].body.spec_index() as int,
                                start as int,
                                old(self).spec_options(),
                            ));
                    }
                }
                return Err(e);
            },
        };
        let ends = set_of(&v);
        proof {
            assert forall|j: usize| ends@.contains(j) <==> reaches(g, self.input@, body.spec_index() as int, start as int, j as int) by {
                assert(pset(v@).contains(j as int) == crate::language::ends(g, self.input@, body.spec_index() as int, start as int).contains(j as int));
                if v@.contains(j) {
                    let q = choose|q: int| 0 <= q < v@.len() && v@[q] == j;
                    assert(v@[q] as int == j as int);
                }
                if pset(v@).contains(j as int) {
                    let q = choose|q: int| 0 <= q < v@.len() && #[trigger] v@[q] as int == j as int;
                    assert(v@[q] == j);
                }
            }
            assert forall|j: usize| ends@.contains(j) <==> finishes(g, self.input@, body.spec_index() as int, start as int, j as int) by {
                assert(ends@.contains(j) <==> reaches(g, self.input@, body.spec_index() as int, start as int, j as int));
            }
            assert(start_usable(g, rule@, i as int));
            assert(body == g.spec_rules()[i as int].body);
            assert(g == old(self).spec_grammar() && self.input@ == old(self).spec_input());
        }
        Ok(ends)
    }

    /// Whether the whole input is in the language of `rule`.
    ///
    /// Never an error for "does not match": that is `Ok(false)`. The errors are those of
    /// [`Recognizer::end_positions`].
    pub fn accepts(&mut self, rule: &str) -> (r: Result<bool, MatchError>)
        ensures
            final(self).spec_grammar() == old(self).spec_grammar(),
            final(self).spec_input() == old(self).spec_input(),
            final(self).spec_options() == old(self).spec_options(),
            final(self).spec_memo_on() == old(self).spec_memo_on(),
            final(self).spec_steps() >= old(self).spec_steps(),
            match r {
                Ok(b) => exists|i: int|
                    start_usable(old(self).spec_grammar(), rule@, i) && b == reaches(
                        old(self).spec_grammar(),
                        old(self).spec_input(),
                        old(self).spec_grammar().spec_rules()[i].body.spec_index() as int,
                        0,
                        old(self).spec_input().len() as int,
                    ),
                Err(e) => gate_error(old(self).spec_grammar(), rule@, e) || exists|i: int|
                    start_usable(old(self).spec_grammar(), rule@, i) && limit_error(
                        e,
                        old(self).spec_options(),
                        old(self).spec_memo_on(),
                        final(self).spec_steps(),
                    ),
            },
            r matches Err(e) ==> (e is DepthLimit ==> exists|i: int|
                start_usable(old(self).spec_grammar(), rule@, i) && too_deep(
                    old(self).spec_grammar(),
                    old(self).spec_input(),
                    old(self).spec_grammar().spec_rules()[i].body.spec_index() as int,
                    0,
                    depth_budget(old(self).spec_options()) as nat,
                )),
            answer_owed(old(self).spec_grammar(), old(self).spec_input(), rule@, 0, old(self).spec_options(), old(self).spec_memo_on())
                ==> r is Ok,
    {
        proof {
            use_type_invariant(&*self);
        }
        let len = self.input.len();
        let ends = self.end_positions(rule, 0)?;
        Ok(set_has(&ends, len))
    }
}

/// Memoization changes the work done and nothing else: whatever end positions a recognizer
/// reports for a rule and a start position (what [`Recognizer::end_positions`] ensures, which
/// does not depend on whether it memoizes), any other recognizer over the same grammar and
/// input reports the same ones.
pub proof fn lemma_memoization_is_invisible(
    g: CheckedGrammar,
    s: Seq<char>,
    name: Seq<char>,
    start: int,
    a: Set<usize>,
    b: Set<usize>,
)
    requires
        exists|i: int|
            start_usable(g, name, i) && forall|j: usize|
                #[trigger] a.contains(j) <==> finishes(g, s, g.spec_rules()[i].body.spec_index() as int, start, j as int),
        exists|i: int|
            start_usable(g, name, i) && forall|j: usize|
                #[trigger] b.contains(j) <==> finishes(g, s, g.spec_rules()[i].body.spec_index() as int, start, j as int),
    ensures
        a == b,
{
    let i = choose|i: int|
        start_usable(g, name, i) && forall|j: usize|
            #[trigger] a.contains(j) <==> finishes(g, s, g.spec_rules()[i].body.spec_index() as int, start, j as int);
    let k = choose|k: int|
        start_usable(g, name, k) && forall|j: usize|
            #[trigger] b.contains(j) <==> finishes(g, s, g.spec_rules()[k].body.spec_index() as int, start, j as int);
    assert(i == k) by {
        if i < k {
            assert(crate::text::fold_case(g.spec_rules()[i].name@) == crate::text::fold_case(name));
        } else if k < i {
            assert(crate::text::fold_case(g.spec_rules()[k].name@) == crate::text::fold_case(name));
        }
    }
    assert(a =~= b);
}

} // verus!
