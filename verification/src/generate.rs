//! The generator: strings that a rule accepts.
//!
//! A walk over the arena that emits a string the grammar accepts; every string it returns is
//! in the language of its start rule ([`Generator::generate`] states it). Two things make it
//! finish on grammars where a naive walk would not:
//!
//! * **Unproductive nodes are never entered**, in any mode: no branch, optional body or
//!   repeated body that matches no string at all. Once inside `bad = "x" bad` there may be no
//!   alternation left to steer by, so the ban is absolute rather than a fallback.
//! * **Witness mode.** When the depth budget runs out the walk stops choosing and follows,
//!   at every alternation, the branch of least rank (see [`crate::analysis`]), takes every
//!   repetition at its minimum and skips every optional. Ranks strictly decrease along that
//!   walk, so it reaches terminals.
//!
//! Termination is not the same as practicality. `start = 1000000000*"a"` is productive and
//! has no shorter expansion; [`GenOptions::max_output_len`] is what makes that an error.
//!
//! Deterministic: the same grammar, seed, options and sequence of calls give the same
//! strings.
use vstd::prelude::*;

use crate::analysis::{
    derivable, lemma_derives_ranked, lemma_ranked_derives, productivity, ranked, ranked_below,
    ranks_of, ranks_ok, settled,
};
use crate::ast::{CharVal, Node, NodeId, NumVal};
use crate::check::{node_ok, CheckedGrammar};
use crate::error::GenError;
use crate::language::{
    char_matches, char_val_matches, count_allowed, derives, ends, extends, items_ends, items_of,
    lemma_alt_ends, lemma_children_below, lemma_concat_ends, lemma_extends_trans,
    lemma_items_ends_extend, lemma_items_step, lemma_items_zero, lemma_optional_ends,
    lemma_reaches_extend, lemma_ref_ends, lemma_rep_ends_extend, lemma_rep_step, lemma_rep_zero,
    lemma_repeat_ends, lemma_terminal_ends, num_val_matches, reaches, rep_ends, step,
};
use crate::reach::{
    edge, gen_gate_error, lemma_usable_edge, lemma_usable_self, names_rule, representable,
    scalar_ok, start_usable, usable_from,
};
use crate::rng::{mix, SplitMix64};
use crate::text::{
    ascii_lower, ascii_upper, char_from_u32, chars_of, fold_eq, lemma_fold_changes_of_case,
    lower_char, string_of, upper_char,
};

verus! {

/// How many extra repetitions a repetition may take beyond its minimum.
pub const DEFAULT_SPREAD: usize = 3;

/// How deep the walk may recurse through rule references before it starts following
/// witnesses. A steering budget, not a safety limit: exhausting it is never an error.
pub const DEFAULT_GEN_DEPTH: usize = 16;

/// How long a generated string may get before generation gives up.
pub const DEFAULT_MAX_OUTPUT_LEN: usize = 1_048_576;

/// How many nodes the walk may visit before it gives up.
pub const DEFAULT_MAX_STEPS: u64 = 16_777_216;

/// How to generate.
#[derive(Clone, Debug, PartialEq, Eq, Structural)]
pub struct GenOptions {
    /// How deep to recurse through rule references before switching to witness mode.
    /// Default [`DEFAULT_GEN_DEPTH`].
    pub max_depth: usize,
    /// How many repetitions beyond the minimum to consider. Default [`DEFAULT_SPREAD`]: a
    /// repetition takes a count uniformly from `min..=min(max, min + spread)`.
    pub spread: usize,
    /// Steer towards uncovered branches rather than choosing randomly. Reserved: the walk
    /// does not consult it yet.
    pub coverage: bool,
    /// Emit case-insensitive strings exactly as written, rather than varying their case.
    pub preserve_case: bool,
    /// Give up once the output reaches this many scalar values. Default
    /// [`DEFAULT_MAX_OUTPUT_LEN`].
    pub max_output_len: Option<usize>,
    /// Give up after visiting this many nodes. Default [`DEFAULT_MAX_STEPS`].
    pub max_steps: Option<u64>,
}

/// The default generation options.
pub open spec fn default_gen_options() -> GenOptions {
    GenOptions {
        max_depth: DEFAULT_GEN_DEPTH,
        spread: DEFAULT_SPREAD,
        coverage: false,
        preserve_case: false,
        max_output_len: Some(DEFAULT_MAX_OUTPUT_LEN),
        max_steps: Some(DEFAULT_MAX_STEPS),
    }
}

impl Default for GenOptions {
    fn default() -> (o: Self)
        ensures
            o == default_gen_options(),
    {
        GenOptions {
            max_depth: DEFAULT_GEN_DEPTH,
            spread: DEFAULT_SPREAD,
            coverage: false,
            preserve_case: false,
            max_output_len: Some(DEFAULT_MAX_OUTPUT_LEN),
            max_steps: Some(DEFAULT_MAX_STEPS),
        }
    }
}

/// Whether `e` is one of the limits a walk can stop at under options `o`, having taken
/// `steps` steps: the output limit when one is set; the step limit when one is set or the
/// step counter is exhausted.
pub open spec fn walk_error(e: GenError, o: GenOptions, steps: u64) -> bool {
    match e {
        GenError::StepLimit => o.max_steps is Some || steps == u64::MAX,
        GenError::OutputLimit => o.max_output_len is Some,
        _ => false,
    }
}

/// One more node visited: the counter after it, and whether the walk may go on.
pub open spec fn step_after(o: GenOptions, steps: u64) -> (Result<(), GenError>, u64) {
    if steps == u64::MAX {
        (Err(GenError::StepLimit), steps)
    } else if o.max_steps matches Some(l) && steps + 1 > l {
        (Err(GenError::StepLimit), (steps + 1) as u64)
    } else {
        (Ok(()), (steps + 1) as u64)
    }
}

/// One scalar appended, unless the output has reached its limit.
pub open spec fn pushed(o: GenOptions, out: Seq<char>, c: char) -> (Result<(), GenError>, Seq<char>) {
    if o.max_output_len matches Some(l) && out.len() >= l {
        (Err(GenError::OutputLimit), out)
    } else {
        (Ok(()), out.push(c))
    }
}

/// The character whose scalar value is `x`.
pub open spec fn char_of(x: int) -> char {
    x as char
}

/// The first `k` characters of a quoted string emitted after `out`: each as written, or, when
/// `vary` holds, raised or lowered on a coin toss.
pub open spec fn emitted_chars(
    chars: Seq<char>,
    vary: bool,
    o: GenOptions,
    rng: SplitMix64,
    out: Seq<char>,
    k: nat,
) -> (Result<(), GenError>, SplitMix64, Seq<char>)
    decreases k,
{
    if k == 0 {
        (Ok(()), rng, out)
    } else {
        let prev = emitted_chars(chars, vary, o, rng, out, (k - 1) as nat);
        if prev.0 is Err {
            prev
        } else {
            let ch = chars[k - 1];
            let c = if !vary {
                ch
            } else if mix(prev.1.advanced()) % 2 == 1 {
                ascii_upper(ch)
            } else {
                ascii_lower(ch)
            };
            let next = if vary {
                prev.1.stepped()
            } else {
                prev.1
            };
            let p = pushed(o, prev.2, c);
            (p.0, next, p.1)
        }
    }
}

/// Once emitting a quoted string fails, emitting more of it changes nothing.
proof fn lemma_chars_stuck(
    chars: Seq<char>,
    vary: bool,
    o: GenOptions,
    rng: SplitMix64,
    out: Seq<char>,
    k: nat,
    m: nat,
)
    requires
        emitted_chars(chars, vary, o, rng, out, k).0 is Err,
        k <= m,
    ensures
        emitted_chars(chars, vary, o, rng, out, m) == emitted_chars(chars, vary, o, rng, out, k),
    decreases m,
{
    if k < m {
        lemma_chars_stuck(chars, vary, o, rng, out, k, (m - 1) as nat);
    }
}

/// Once emitting a dotted numeric terminal fails, emitting more of it changes nothing.
proof fn lemma_values_stuck(values: Seq<u64>, o: GenOptions, out: Seq<char>, k: nat, m: nat)
    requires
        emitted_values(values, o, out, k).0 is Err,
        k <= m,
    ensures
        emitted_values(values, o, out, m) == emitted_values(values, o, out, k),
    decreases m,
{
    if k < m {
        lemma_values_stuck(values, o, out, k, (m - 1) as nat);
    }
}

/// The `k`th Unicode scalar value of `lo..=hi`, in order.
pub open spec fn nth_of(lo: u64, hi: u64, k: u64) -> int {
    if k < low_part(lo, hi) {
        lo + k
    } else {
        high_start(lo) + (k - low_part(lo, hi))
    }
}

/// The first `k` values of a dotted numeric terminal emitted after `out`.
pub open spec fn emitted_values(values: Seq<u64>, o: GenOptions, out: Seq<char>, k: nat) -> (
    Result<(), GenError>,
    Seq<char>,
)
    decreases k,
{
    if k == 0 {
        (Ok(()), out)
    } else {
        let prev = emitted_values(values, o, out, (k - 1) as nat);
        if prev.0 is Err {
            prev
        } else {
            pushed(o, prev.1, char_of(values[k - 1] as int))
        }
    }
}

/// A numeric terminal emitted after `out`.
pub open spec fn emitted_num(v: NumVal, o: GenOptions, rng: SplitMix64, out: Seq<char>) -> (
    Result<(), GenError>,
    SplitMix64,
    Seq<char>,
) {
    match v {
        NumVal::Scalar(x) => {
            let p = pushed(o, out, char_of(x as int));
            (p.0, rng, p.1)
        },
        NumVal::Range { lo, hi } => {
            let count = low_part(lo, hi) + high_part(lo, hi);
            let k = (mix(rng.advanced()) % (count as u64)) as u64;
            let p = pushed(o, out, char_of(nth_of(lo, hi, k)));
            (p.0, rng.stepped(), p.1)
        },
        NumVal::Concat(values) => {
            let p = emitted_values(values@, o, out, values@.len());
            (p.0, rng, p.1)
        },
    }
}

/// The positions of the branches among the first `k` of `bs` that match some string.
pub open spec fn usable_branches(rk: Seq<Option<u64>>, bs: Seq<NodeId>, k: int) -> Seq<usize>
    decreases k,
{
    if k <= 0 {
        Seq::empty()
    } else {
        let u = usable_branches(rk, bs, k - 1);
        if rk[bs[k - 1].spec_index() as int] is Some {
            u.push((k - 1) as usize)
        } else {
            u
        }
    }
}

/// The rank of branch `b` of `bs`, or the largest value when it has none.
pub open spec fn branch_rank(rk: Seq<Option<u64>>, bs: Seq<NodeId>, b: usize) -> u64 {
    match rk[bs[b as int].spec_index() as int] {
        Some(q) => q,
        None => u64::MAX,
    }
}

/// The first of the branches `us[..p]` of least rank.
pub open spec fn least_branch(rk: Seq<Option<u64>>, bs: Seq<NodeId>, us: Seq<usize>, p: int) -> usize
    decreases p,
{
    if p <= 1 {
        us[0]
    } else {
        let b = least_branch(rk, bs, us, p - 1);
        if branch_rank(rk, bs, us[p - 1]) < branch_rank(rk, bs, b) {
            us[p - 1]
        } else {
            b
        }
    }
}

/// The branch of `bs` the walk takes at `depth`, and the random state after choosing it.
pub open spec fn chosen_branch(rk: Seq<Option<u64>>, bs: Seq<NodeId>, o: GenOptions, depth: usize, rng: SplitMix64) -> (
    usize,
    SplitMix64,
) {
    let us = usable_branches(rk, bs, bs.len() as int);
    if depth >= o.max_depth {
        (least_branch(rk, bs, us, us.len() as int), rng)
    } else {
        (us[(mix(rng.advanced()) % (us.len() as u64)) as int], rng.stepped())
    }
}

/// The usable positions among the first `k` branches are positions below `k` of branches
/// that match some string, no more of them than `k`.
proof fn lemma_usable_are_usable(rk: Seq<Option<u64>>, bs: Seq<NodeId>, k: int)
    requires
        0 <= k <= bs.len(),
        bs.len() <= usize::MAX,
    ensures
        usable_branches(rk, bs, k).len() <= k,
        forall|p: int|
            0 <= p < usable_branches(rk, bs, k).len() ==> (#[trigger] usable_branches(rk, bs, k)[p]) < k
                && rk[bs[usable_branches(rk, bs, k)[p] as int].spec_index() as int] is Some,
    decreases k,
{
    if k > 0 {
        lemma_usable_are_usable(rk, bs, k - 1);
    }
}

/// Every branch among the first `k` that matches some string is listed as usable.
proof fn lemma_usable_listed(rk: Seq<Option<u64>>, bs: Seq<NodeId>, k: int, b: int)
    requires
        0 <= b < k <= bs.len(),
        bs.len() <= usize::MAX,
        rk[bs[b].spec_index() as int] is Some,
    ensures
        exists|p: int| 0 <= p < usable_branches(rk, bs, k).len() && #[trigger] usable_branches(rk, bs, k)[p] == b,
    decreases k,
{
    let u = usable_branches(rk, bs, k - 1);
    if b == k - 1 {
        assert(usable_branches(rk, bs, k)[u.len() as int] == b);
    } else {
        lemma_usable_listed(rk, bs, k - 1, b);
        let p = choose|p: int| 0 <= p < u.len() && #[trigger] u[p] == b;
        assert(usable_branches(rk, bs, k)[p] == b);
    }
}

/// The branch of least rank is one of the candidates it is picked from.
proof fn lemma_least_is_candidate(rk: Seq<Option<u64>>, bs: Seq<NodeId>, us: Seq<usize>, p: int)
    requires
        1 <= p <= us.len(),
    ensures
        exists|q: int| 0 <= q < p && #[trigger] us[q] == least_branch(rk, bs, us, p),
    decreases p,
{
    if p > 1 {
        lemma_least_is_candidate(rk, bs, us, p - 1);
        let q = choose|q: int| 0 <= q < p - 1 && #[trigger] us[q] == least_branch(rk, bs, us, p - 1);
        if branch_rank(rk, bs, us[p - 1]) < branch_rank(rk, bs, least_branch(rk, bs, us, p - 1)) {
            assert(us[p - 1] == least_branch(rk, bs, us, p));
        } else {
            assert(us[q] == least_branch(rk, bs, us, p));
        }
    } else {
        assert(us[0] == least_branch(rk, bs, us, 1));
    }
}

/// Outside witness mode every branch of an alternation that matches some string can be
/// taken: for each there is a random state from which the walk takes it. The choice is
/// not tied to the first such branch, nor to any other fixed one.
pub proof fn lemma_every_usable_branch_can_be_chosen(
    rk: Seq<Option<u64>>,
    bs: Seq<NodeId>,
    o: GenOptions,
    depth: usize,
    b: usize,
)
    requires
        depth < o.max_depth,
        b < bs.len(),
        bs.len() <= usize::MAX,
        rk[bs[b as int].spec_index() as int] is Some,
    ensures
        exists|rng: SplitMix64| #[trigger] chosen_branch(rk, bs, o, depth, rng).0 == b,
{
    let us = usable_branches(rk, bs, bs.len() as int);
    lemma_usable_are_usable(rk, bs, bs.len() as int);
    lemma_usable_listed(rk, bs, bs.len() as int, b as int);
    let p = choose|p: int| 0 <= p < us.len() && #[trigger] us[p] == b;
    SplitMix64::lemma_any_draw(p as u64);
    let r = choose|r: SplitMix64| #[trigger] mix(r.advanced()) == p as u64;
    assert(us.len() <= u64::MAX);
    assert((us.len() as u64) as int == us.len());
    assert((p as u64) as int == p);
    vstd::arithmetic::div_mod::lemma_small_mod(p as nat, us.len());
    assert((p as u64) % (us.len() as u64) == p as u64);
    assert(chosen_branch(rk, bs, o, depth, r).0 == b);
}

/// Whatever the random state, the walk takes a branch that matches some string; outside
/// witness mode the choice uses exactly one draw, and in witness mode none.
pub proof fn lemma_chosen_branch_is_usable(
    rk: Seq<Option<u64>>,
    bs: Seq<NodeId>,
    o: GenOptions,
    depth: usize,
    rng: SplitMix64,
)
    requires
        bs.len() <= usize::MAX,
        exists|b: int| 0 <= b < bs.len() && rk[#[trigger] bs[b].spec_index() as int] is Some,
    ensures
        chosen_branch(rk, bs, o, depth, rng).0 < bs.len(),
        rk[bs[chosen_branch(rk, bs, o, depth, rng).0 as int].spec_index() as int] is Some,
        chosen_branch(rk, bs, o, depth, rng).1 == (if depth >= o.max_depth { rng } else { rng.stepped() }),
{
    let us = usable_branches(rk, bs, bs.len() as int);
    let b = choose|b: int| 0 <= b < bs.len() && rk[#[trigger] bs[b].spec_index() as int] is Some;
    lemma_usable_are_usable(rk, bs, bs.len() as int);
    lemma_usable_listed(rk, bs, bs.len() as int, b);
    if depth >= o.max_depth {
        lemma_least_is_candidate(rk, bs, us, us.len() as int);
        let q = choose|q: int| 0 <= q < us.len() && #[trigger] us[q] == least_branch(rk, bs, us, us.len() as int);
        assert(us[q] < bs.len());
    } else {
        let y = mix(rng.advanced()) % (us.len() as u64);
        assert(y < us.len());
        assert(us[y as int] < bs.len());
    }
}

/// How many times the walk repeats a body at `depth`, and the random state after choosing.
pub open spec fn chosen_count(
    min: u64,
    max: Option<u64>,
    depth: usize,
    body_ok: bool,
    o: GenOptions,
    rng: SplitMix64,
) -> (u64, SplitMix64) {
    if depth >= o.max_depth || !body_ok {
        (min, rng)
    } else {
        let cap: u64 = match max {
            Some(m) => m,
            None => u64::MAX,
        };
        let spread = o.spread as u64;
        let reach: u64 = if min <= u64::MAX - spread {
            (min + spread) as u64
        } else {
            u64::MAX
        };
        let ceiling: u64 = if cap < reach {
            cap
        } else {
            reach
        };
        if ceiling <= min {
            (min, rng)
        } else if ceiling - min == u64::MAX {
            (mix(rng.advanced()), rng.stepped())
        } else {
            ((min + mix(rng.advanced()) % ((ceiling - min + 1) as u64)) as u64, rng.stepped())
        }
    }
}

/// Whether the walk takes an optional's body at `depth`, and the random state after.
pub open spec fn taken(rk: Seq<Option<u64>>, body: NodeId, depth: usize, o: GenOptions, rng: SplitMix64) -> (
    bool,
    SplitMix64,
) {
    if rk[body.spec_index() as int] is None || depth >= o.max_depth {
        (false, rng)
    } else {
        (mix(rng.advanced()) % 2 == 1, rng.stepped())
    }
}

/// The depth a rule's body is walked at.
pub open spec fn deeper(depth: usize) -> usize {
    if depth < usize::MAX {
        (depth + 1) as usize
    } else {
        depth
    }
}

/// The walk of node `n` at `depth` from the state `st` (random state, steps, output), with
/// at most `f` more nodes: how it ends and the state after it. Each node visited counts one
/// step; a walk that runs out of steps stops there.
pub open spec fn walked(
    g: CheckedGrammar,
    rk: Seq<Option<u64>>,
    o: GenOptions,
    f: nat,
    n: int,
    depth: usize,
    st: (SplitMix64, u64, Seq<char>),
) -> (Result<(), GenError>, (SplitMix64, u64, Seq<char>))
    decreases f, 1nat, 0int,
{
    if f == 0 {
        (Err(GenError::StepLimit), st)
    } else {
        let s = step_after(o, st.1);
        if s.0 is Err {
            (s.0, (st.0, s.1, st.2))
        } else {
            walked_node(g, rk, o, f, n, depth, (st.0, s.1, st.2))
        }
    }
}

/// What visiting node `n` does once its step is counted, with the state `st` after the step.
pub open spec fn walked_node(
    g: CheckedGrammar,
    rk: Seq<Option<u64>>,
    o: GenOptions,
    f: nat,
    n: int,
    depth: usize,
    st: (SplitMix64, u64, Seq<char>),
) -> (Result<(), GenError>, (SplitMix64, u64, Seq<char>))
    decreases f, 0nat, 0int,
{
    if f == 0 {
        (Err(GenError::StepLimit), st)
    } else {
        match g.spec_nodes()[n] {
            Node::Alt { branches } => {
                let b = chosen_branch(rk, branches@, o, depth, st.0);
                walked(g, rk, o, (f - 1) as nat, branches@[b.0 as int].spec_index() as int, depth, (b.1, st.1, st.2))
            },
            Node::Concat { items } => walked_items(g, rk, o, (f - 1) as nat, items@, depth, items@.len() as int, st),
            Node::Repeat { repeat, body, .. } => {
                let c = chosen_count(repeat.min, repeat.max, depth, rk[body.spec_index() as int] is Some, o, st.0);
                walked_copies(g, rk, o, (f - 1) as nat, body.spec_index() as int, depth, c.0 as nat, (c.1, st.1, st.2))
            },
            Node::Optional { body } => {
                let t = taken(rk, body, depth, o, st.0);
                if t.0 {
                    walked(g, rk, o, (f - 1) as nat, body.spec_index() as int, depth, (t.1, st.1, st.2))
                } else {
                    (Ok(()), (t.1, st.1, st.2))
                }
            },
            Node::RuleRef { .. } => match g.spec_resolved()[n] {
                Some(t) => walked(g, rk, o, (f - 1) as nat, g.spec_rule(t).body.spec_index() as int, deeper(depth), st),
                None => (Ok(()), st),
            },
            Node::CharVal(cv) => {
                let e = emitted_chars(cv.value@, !(cv.case_sensitive || o.preserve_case), o, st.0, st.2, cv.value@.len());
                (e.0, (e.1, st.1, e.2))
            },
            Node::NumVal { value, .. } => {
                let e = emitted_num(value, o, st.0, st.2);
                (e.0, (e.1, st.1, e.2))
            },
            Node::ProseVal(_) => (Ok(()), st),
        }
    }
}

/// The walk of the first `k` of `items`, one after another.
pub open spec fn walked_items(
    g: CheckedGrammar,
    rk: Seq<Option<u64>>,
    o: GenOptions,
    f: nat,
    items: Seq<NodeId>,
    depth: usize,
    k: int,
    st: (SplitMix64, u64, Seq<char>),
) -> (Result<(), GenError>, (SplitMix64, u64, Seq<char>))
    decreases f, 2nat, k,
{
    if k <= 0 {
        (Ok(()), st)
    } else {
        let prev = walked_items(g, rk, o, f, items, depth, k - 1, st);
        if prev.0 is Err {
            prev
        } else {
            walked(g, rk, o, f, items[k - 1].spec_index() as int, depth, prev.1)
        }
    }
}

/// The walk of `c` copies of node `body`, one after another.
pub open spec fn walked_copies(
    g: CheckedGrammar,
    rk: Seq<Option<u64>>,
    o: GenOptions,
    f: nat,
    body: int,
    depth: usize,
    c: nat,
    st: (SplitMix64, u64, Seq<char>),
) -> (Result<(), GenError>, (SplitMix64, u64, Seq<char>))
    decreases f, 2nat, c as int,
{
    if c == 0 {
        (Ok(()), st)
    } else {
        let prev = walked_copies(g, rk, o, f, body, depth, (c - 1) as nat, st);
        if prev.0 is Err {
            prev
        } else {
            walked(g, rk, o, f, body, depth, prev.1)
        }
    }
}

/// A walk that goes through stays within the step limit.
pub proof fn lemma_walked_within(
    g: CheckedGrammar,
    rk: Seq<Option<u64>>,
    o: GenOptions,
    f: nat,
    n: int,
    depth: usize,
    st: (SplitMix64, u64, Seq<char>),
    l: u64,
)
    requires
        o.max_steps == Some(l),
        walked(g, rk, o, f, n, depth, st).0 is Ok,
    ensures
        walked(g, rk, o, f, n, depth, st).1.1 <= l,
    decreases f, 1nat, 0int,
{
    if f > 0 {
        let s = step_after(o, st.1);
        if s.0 is Ok {
            lemma_node_within(g, rk, o, f, n, depth, (st.0, s.1, st.2), l);
        }
    }
}

/// A node's walk that goes through from within the step limit stays within it.
proof fn lemma_node_within(
    g: CheckedGrammar,
    rk: Seq<Option<u64>>,
    o: GenOptions,
    f: nat,
    n: int,
    depth: usize,
    st: (SplitMix64, u64, Seq<char>),
    l: u64,
)
    requires
        o.max_steps == Some(l),
        st.1 <= l,
        walked_node(g, rk, o, f, n, depth, st).0 is Ok,
    ensures
        walked_node(g, rk, o, f, n, depth, st).1.1 <= l,
    decreases f, 0nat, 0int,
{
    if f > 0 {
        match g.spec_nodes()[n] {
            Node::Alt { branches } => {
                let b = chosen_branch(rk, branches@, o, depth, st.0);
                lemma_walked_within(g, rk, o, (f - 1) as nat, branches@[b.0 as int].spec_index() as int, depth, (b.1, st.1, st.2), l);
            },
            Node::Concat { items } => {
                lemma_items_within(g, rk, o, (f - 1) as nat, items@, depth, items@.len() as int, st, l);
            },
            Node::Repeat { repeat, body, .. } => {
                let c = chosen_count(repeat.min, repeat.max, depth, rk[body.spec_index() as int] is Some, o, st.0);
                lemma_copies_within(g, rk, o, (f - 1) as nat, body.spec_index() as int, depth, c.0 as nat, (c.1, st.1, st.2), l);
            },
            Node::Optional { body } => {
                let t = taken(rk, body, depth, o, st.0);
                if t.0 {
                    lemma_walked_within(g, rk, o, (f - 1) as nat, body.spec_index() as int, depth, (t.1, st.1, st.2), l);
                }
            },
            Node::RuleRef { .. } => {
                if let Some(t) = g.spec_resolved()[n] {
                    lemma_walked_within(g, rk, o, (f - 1) as nat, g.spec_rule(t).body.spec_index() as int, deeper(depth), st, l);
                }
            },
            _ => {},
        }
    }
}

/// Items walked through from within the step limit stay within it.
proof fn lemma_items_within(
    g: CheckedGrammar,
    rk: Seq<Option<u64>>,
    o: GenOptions,
    f: nat,
    items: Seq<NodeId>,
    depth: usize,
    k: int,
    st: (SplitMix64, u64, Seq<char>),
    l: u64,
)
    requires
        o.max_steps == Some(l),
        st.1 <= l,
        walked_items(g, rk, o, f, items, depth, k, st).0 is Ok,
    ensures
        walked_items(g, rk, o, f, items, depth, k, st).1.1 <= l,
    decreases f, 2nat, k,
{
    if k > 0 {
        lemma_items_within(g, rk, o, f, items, depth, k - 1, st, l);
        let prev = walked_items(g, rk, o, f, items, depth, k - 1, st);
        lemma_walked_within(g, rk, o, f, items[k - 1].spec_index() as int, depth, prev.1, l);
    }
}

/// Copies walked through from within the step limit stay within it.
proof fn lemma_copies_within(
    g: CheckedGrammar,
    rk: Seq<Option<u64>>,
    o: GenOptions,
    f: nat,
    body: int,
    depth: usize,
    c: nat,
    st: (SplitMix64, u64, Seq<char>),
    l: u64,
)
    requires
        o.max_steps == Some(l),
        st.1 <= l,
        walked_copies(g, rk, o, f, body, depth, c, st).0 is Ok,
    ensures
        walked_copies(g, rk, o, f, body, depth, c, st).1.1 <= l,
    decreases f, 2nat, c as int,
{
    if c > 0 {
        lemma_copies_within(g, rk, o, f, body, depth, (c - 1) as nat, st, l);
        let prev = walked_copies(g, rk, o, f, body, depth, (c - 1) as nat, st);
        lemma_walked_within(g, rk, o, f, body, depth, prev.1, l);
    }
}

/// A result that went through is `Ok(())`: there is only one unit.
proof fn lemma_ok_unit(r: Result<(), GenError>)
    requires
        r is Ok,
    ensures
        r == Ok::<(), GenError>(()),
{
    match r {
        Ok(u) => {
            assert(u == ());
        },
        Err(_) => {},
    }
}

/// Whether the first `k` items of a concatenation were walked from `st` without failing,
/// ending in the state `now`.
#[verifier::opaque]
spec fn items_went(
    g: CheckedGrammar,
    rk: Seq<Option<u64>>,
    o: GenOptions,
    f: nat,
    items: Seq<NodeId>,
    depth: usize,
    k: int,
    st: (SplitMix64, u64, Seq<char>),
    now: (SplitMix64, u64, Seq<char>),
) -> bool {
    walked_items(g, rk, o, f, items, depth, k, st) == (Ok::<(), GenError>(()), now)
}

/// Whether walking node `n` from `st0` is walking its items from `st1`.
#[verifier::opaque]
spec fn walk_is_items(
    g: CheckedGrammar,
    rk: Seq<Option<u64>>,
    o: GenOptions,
    f: nat,
    n: int,
    depth: usize,
    st0: (SplitMix64, u64, Seq<char>),
    items: Seq<NodeId>,
    st1: (SplitMix64, u64, Seq<char>),
) -> bool {
    f >= 1 && walked(g, rk, o, f, n, depth, st0) == walked_items(g, rk, o, (f - 1) as nat, items, depth, items.len() as int, st1)
}

/// Whether the first `c` copies of a repeated body were walked from `st` without failing,
/// ending in the state `now`.
#[verifier::opaque]
spec fn copies_went(
    g: CheckedGrammar,
    rk: Seq<Option<u64>>,
    o: GenOptions,
    f: nat,
    body: int,
    depth: usize,
    c: nat,
    st: (SplitMix64, u64, Seq<char>),
    now: (SplitMix64, u64, Seq<char>),
) -> bool {
    walked_copies(g, rk, o, f, body, depth, c, st) == (Ok::<(), GenError>(()), now)
}

/// Whether walking node `n` from `st0` is walking `count` copies of `body` from `st1`.
#[verifier::opaque]
spec fn walk_is_copies(
    g: CheckedGrammar,
    rk: Seq<Option<u64>>,
    o: GenOptions,
    f: nat,
    n: int,
    depth: usize,
    st0: (SplitMix64, u64, Seq<char>),
    body: int,
    count: nat,
    st1: (SplitMix64, u64, Seq<char>),
) -> bool {
    f >= 1 && walked(g, rk, o, f, n, depth, st0) == walked_copies(g, rk, o, (f - 1) as nat, body, depth, count, st1)
}

/// Nothing of a concatenation walked yet.
proof fn lemma_items_begin(
    g: CheckedGrammar,
    rk: Seq<Option<u64>>,
    o: GenOptions,
    f: nat,
    items: Seq<NodeId>,
    depth: usize,
    st: (SplitMix64, u64, Seq<char>),
)
    ensures
        items_went(g, rk, o, f, items, depth, 0, st, st),
{
    reveal(items_went);
}

/// One more item walked: either the walk goes on, or the whole node ends as this item did.
proof fn lemma_items_advance(
    g: CheckedGrammar,
    rk: Seq<Option<u64>>,
    o: GenOptions,
    f: nat,
    n: int,
    depth: usize,
    st0: (SplitMix64, u64, Seq<char>),
    items: Seq<NodeId>,
    st1: (SplitMix64, u64, Seq<char>),
    k: int,
    mid: (SplitMix64, u64, Seq<char>),
    r: Result<(), GenError>,
    after: (SplitMix64, u64, Seq<char>),
)
    requires
        walk_is_items(g, rk, o, f, n, depth, st0, items, st1),
        0 <= k < items.len(),
        items_went(g, rk, o, (f - 1) as nat, items, depth, k, st1, mid),
        (r, after) == walked(g, rk, o, (f - 1) as nat, items[k].spec_index() as int, depth, mid),
    ensures
        r is Ok ==> items_went(g, rk, o, (f - 1) as nat, items, depth, k + 1, st1, after),
        r is Err ==> walked(g, rk, o, f, n, depth, st0) == (r, after),
{
    reveal(items_went);
    reveal(walk_is_items);
    assert(walked_items(g, rk, o, (f - 1) as nat, items, depth, k + 1, st1) == (r, after));
    if r is Ok {
        lemma_ok_unit(r);
    } else {
        lemma_items_stuck(g, rk, o, (f - 1) as nat, items, depth, k + 1, items.len() as int, st1);
    }
}

/// Every item walked: the node ends where its last item did.
proof fn lemma_items_end(
    g: CheckedGrammar,
    rk: Seq<Option<u64>>,
    o: GenOptions,
    f: nat,
    n: int,
    depth: usize,
    st0: (SplitMix64, u64, Seq<char>),
    items: Seq<NodeId>,
    st1: (SplitMix64, u64, Seq<char>),
    now: (SplitMix64, u64, Seq<char>),
)
    requires
        walk_is_items(g, rk, o, f, n, depth, st0, items, st1),
        items_went(g, rk, o, (f - 1) as nat, items, depth, items.len() as int, st1, now),
    ensures
        walked(g, rk, o, f, n, depth, st0) == (Ok::<(), GenError>(()), now),
{
    reveal(items_went);
    reveal(walk_is_items);
}

/// No copy of a repeated body walked yet.
proof fn lemma_copies_begin(
    g: CheckedGrammar,
    rk: Seq<Option<u64>>,
    o: GenOptions,
    f: nat,
    body: int,
    depth: usize,
    st: (SplitMix64, u64, Seq<char>),
)
    ensures
        copies_went(g, rk, o, f, body, depth, 0, st, st),
{
    reveal(copies_went);
}

/// One more copy walked: either the walk goes on, or the whole node ends as this copy did.
proof fn lemma_copies_advance(
    g: CheckedGrammar,
    rk: Seq<Option<u64>>,
    o: GenOptions,
    f: nat,
    n: int,
    depth: usize,
    st0: (SplitMix64, u64, Seq<char>),
    body: int,
    count: nat,
    st1: (SplitMix64, u64, Seq<char>),
    c: nat,
    mid: (SplitMix64, u64, Seq<char>),
    r: Result<(), GenError>,
    after: (SplitMix64, u64, Seq<char>),
)
    requires
        walk_is_copies(g, rk, o, f, n, depth, st0, body, count, st1),
        c < count,
        copies_went(g, rk, o, (f - 1) as nat, body, depth, c, st1, mid),
        (r, after) == walked(g, rk, o, (f - 1) as nat, body, depth, mid),
    ensures
        r is Ok ==> copies_went(g, rk, o, (f - 1) as nat, body, depth, c + 1, st1, after),
        r is Err ==> walked(g, rk, o, f, n, depth, st0) == (r, after),
{
    reveal(copies_went);
    reveal(walk_is_copies);
    assert(walked_copies(g, rk, o, (f - 1) as nat, body, depth, c + 1, st1) == (r, after));
    if r is Ok {
        lemma_ok_unit(r);
    } else {
        lemma_copies_stuck(g, rk, o, (f - 1) as nat, body, depth, c + 1, count, st1);
    }
}

/// Every copy walked: the node ends where its last copy did.
proof fn lemma_copies_end(
    g: CheckedGrammar,
    rk: Seq<Option<u64>>,
    o: GenOptions,
    f: nat,
    n: int,
    depth: usize,
    st0: (SplitMix64, u64, Seq<char>),
    body: int,
    count: nat,
    st1: (SplitMix64, u64, Seq<char>),
    now: (SplitMix64, u64, Seq<char>),
)
    requires
        walk_is_copies(g, rk, o, f, n, depth, st0, body, count, st1),
        copies_went(g, rk, o, (f - 1) as nat, body, depth, count, st1, now),
    ensures
        walked(g, rk, o, f, n, depth, st0) == (Ok::<(), GenError>(()), now),
{
    reveal(copies_went);
    reveal(walk_is_copies);
}

/// Once walking the items of a concatenation fails, walking more of them changes nothing.
proof fn lemma_items_stuck(
    g: CheckedGrammar,
    rk: Seq<Option<u64>>,
    o: GenOptions,
    f: nat,
    items: Seq<NodeId>,
    depth: usize,
    k: int,
    m: int,
    st: (SplitMix64, u64, Seq<char>),
)
    requires
        0 < k <= m,
        walked_items(g, rk, o, f, items, depth, k, st).0 is Err,
    ensures
        walked_items(g, rk, o, f, items, depth, m, st) == walked_items(g, rk, o, f, items, depth, k, st),
    decreases m,
{
    if k < m {
        lemma_items_stuck(g, rk, o, f, items, depth, k, m - 1, st);
    }
}

/// Once walking the copies of a repeated body fails, walking more of them changes nothing.
proof fn lemma_copies_stuck(
    g: CheckedGrammar,
    rk: Seq<Option<u64>>,
    o: GenOptions,
    f: nat,
    body: int,
    depth: usize,
    c: nat,
    m: nat,
    st: (SplitMix64, u64, Seq<char>),
)
    requires
        0 < c <= m,
        walked_copies(g, rk, o, f, body, depth, c, st).0 is Err,
    ensures
        walked_copies(g, rk, o, f, body, depth, m, st) == walked_copies(g, rk, o, f, body, depth, c, st),
    decreases m,
{
    if c < m {
        lemma_copies_stuck(g, rk, o, f, body, depth, c, (m - 1) as nat, st);
    }
}

/// The scalars of `lo..=hi` below the surrogate block.
pub open spec fn low_part(lo: u64, hi: u64) -> int {
    let top = if hi < 0xD7FF {
        hi as int
    } else {
        0xD7FF
    };
    if lo <= top {
        top - lo + 1
    } else {
        0
    }
}

/// Where the scalars of `lo..=hi` above the surrogate block start.
pub open spec fn high_start(lo: u64) -> int {
    if lo < 0xE000 {
        0xE000
    } else {
        lo as int
    }
}

/// Where the scalars of `lo..=hi` above the surrogate block end.
pub open spec fn high_end(hi: u64) -> int {
    if hi < 0x10FFFF {
        hi as int
    } else {
        0x10FFFF
    }
}

/// The scalars of `lo..=hi` above the surrogate block.
pub open spec fn high_part(lo: u64, hi: u64) -> int {
    if high_start(lo) <= high_end(hi) {
        high_end(hi) - high_start(lo) + 1
    } else {
        0
    }
}

/// How many Unicode scalar values `lo..=hi` holds.
fn scalar_count(lo: u64, hi: u64) -> (n: u64)
    requires
        lo <= hi,
    ensures
        n == low_part(lo, hi) + high_part(lo, hi),
        n > 0 <==> exists|x: int| lo <= x <= hi && #[trigger] scalar_ok(x),
{
    let top: u64 = if hi < 0xD7FF {
        hi
    } else {
        0xD7FF
    };
    let low: u64 = if lo <= top {
        top - lo + 1
    } else {
        0
    };
    let start: u64 = if lo < 0xE000 {
        0xE000
    } else {
        lo
    };
    let end: u64 = if hi < 0x10FFFF {
        hi
    } else {
        0x10FFFF
    };
    let high: u64 = if start <= end {
        end - start + 1
    } else {
        0
    };
    proof {
        if exists|x: int| lo <= x <= hi && #[trigger] scalar_ok(x) {
            let x = choose|x: int| lo <= x <= hi && #[trigger] scalar_ok(x);
            if x <= 0xD7FF {
                assert(low > 0);
            } else {
                assert(high > 0);
            }
        }
        if low > 0 {
            assert(scalar_ok(lo as int));
        }
        if high > 0 {
            assert(scalar_ok(start as int));
        }
    }
    low + high
}

/// The `k`th Unicode scalar value of `lo..=hi`, in order.
fn nth_scalar(lo: u64, hi: u64, k: u64) -> (x: u64)
    requires
        lo <= hi,
        k < low_part(lo, hi) + high_part(lo, hi),
    ensures
        lo <= x <= hi,
        scalar_ok(x as int),
        x == nth_of(lo, hi, k),
{
    let top: u64 = if hi < 0xD7FF {
        hi
    } else {
        0xD7FF
    };
    let low: u64 = if lo <= top {
        top - lo + 1
    } else {
        0
    };
    if k < low {
        lo + k
    } else {
        let start: u64 = if lo < 0xE000 {
            0xE000
        } else {
            lo
        };
        start + (k - low)
    }
}

/// The walk [`Generator::generate`] makes from node `body`: from the random state `rng`, with
/// no steps counted yet and nothing emitted, and enough steps that only the limits stop it.
pub open spec fn generation(g: CheckedGrammar, rk: Seq<Option<u64>>, o: GenOptions, rng: SplitMix64, body: int) -> (
    Result<(), GenError>,
    (SplitMix64, u64, Seq<char>),
) {
    walked(g, rk, o, (u64::MAX + 1) as nat, body, 0, (rng, 0, Seq::empty()))
}

/// Generates strings that a rule accepts.
///
/// Deterministic: the same seed, options and sequence of calls produce the same strings.
/// Constructible only from a [`CheckedGrammar`].
pub struct Generator<'g> {
    grammar: &'g CheckedGrammar,
    rng: SplitMix64,
    options: GenOptions,
    steps: u64,
    /// The productivity fixpoint of `grammar`: which nodes match some string, and the height
    /// of their shortest derivation.
    ranks: Vec<Option<u64>>,
}

impl<'g> Generator<'g> {
    #[verifier::type_invariant]
    spec fn inv(&self) -> bool {
        ranks_ok(*self.grammar, self.ranks@)
    }

    /// The grammar this generator walks.
    pub closed spec fn spec_grammar(&self) -> CheckedGrammar {
        *self.grammar
    }

    /// The options in force.
    pub closed spec fn spec_options(&self) -> GenOptions {
        self.options
    }

    /// The steps taken by the current or last call.
    pub closed spec fn spec_steps(&self) -> u64 {
        self.steps
    }

    /// The state of the random source.
    pub closed spec fn spec_rng(&self) -> SplitMix64 {
        self.rng
    }

    /// The rank of each node of the grammar (see [`crate::analysis`]).
    pub closed spec fn spec_ranks(&self) -> Seq<Option<u64>> {
        self.ranks@
    }

    /// What the walk keeps unchanged.
    spec fn same_setup(&self, other: &Self) -> bool {
        &&& self.grammar == other.grammar
        &&& self.ranks@ == other.ranks@
        &&& self.options == other.options
    }

    /// Creates a generator seeded with `seed`, with the default options.
    pub fn new(grammar: &'g CheckedGrammar, seed: u64) -> (r: Self)
        ensures
            r.spec_grammar() == *grammar,
            r.spec_options() == default_gen_options(),
            r.spec_steps() == 0,
            r.spec_rng().spec_state() == seed,
            r.spec_rng() == SplitMix64::seeded(seed),
            r.spec_ranks() == ranks_of(*grammar),
    {
        let ranks = productivity(grammar);
        Generator {
            grammar,
            rng: SplitMix64::new(seed),
            options: GenOptions::default(),
            steps: 0,
            ranks,
        }
    }

    /// Sets the generation options.
    pub fn with_options(self, options: GenOptions) -> (r: Self)
        ensures
            r.spec_grammar() == self.spec_grammar(),
            r.spec_options() == options,
            r.spec_steps() == self.spec_steps(),
            r.spec_rng() == self.spec_rng(),
            r.spec_ranks() == self.spec_ranks(),
    {
        proof {
            use_type_invariant(&self);
        }
        Generator {
            grammar: self.grammar,
            rng: self.rng,
            options,
            steps: self.steps,
            ranks: self.ranks,
        }
    }

    /// How many nodes the last call visited. Reset by each call of
    /// [`Generator::generate`].
    pub fn steps(&self) -> (n: u64)
        ensures
            n == self.spec_steps(),
    {
        self.steps
    }

    /// Counts one node visit, and stops if that exceeds the limit.
    fn step(&mut self) -> (r: Result<(), GenError>)
        ensures
            final(self).same_setup(old(self)),
            final(self).steps >= old(self).steps,
            r is Ok ==> final(self).steps == old(self).steps + 1,
            r is Err ==> r == Err::<(), GenError>(GenError::StepLimit) && walk_error(
                GenError::StepLimit,
                old(self).options,
                final(self).steps,
            ),
            (r, final(self).steps) == step_after(old(self).options, old(self).steps),
            final(self).rng == old(self).rng,
    {
        proof {
            use_type_invariant(&*self);
        }
        if self.steps == u64::MAX {
            return Err(GenError::StepLimit);
        }
        self.steps = self.steps + 1;
        match self.options.max_steps {
            Some(limit) => {
                if self.steps > limit {
                    return Err(GenError::StepLimit);
                }
            },
            None => {},
        }
        Ok(())
    }

    /// Appends one scalar, unless the output has reached its limit.
    fn push_out(&self, out: &mut Vec<char>, c: char) -> (r: Result<(), GenError>)
        ensures
            r is Ok ==> final(out)@ == old(out)@.push(c),
            r is Err ==> r == Err::<(), GenError>(GenError::OutputLimit)
                && self.options.max_output_len is Some,
            (r, final(out)@) == pushed(self.options, old(out)@, c),
    {
        match self.options.max_output_len {
            Some(limit) => {
                if out.len() >= limit {
                    return Err(GenError::OutputLimit);
                }
            },
            None => {},
        }
        out.push(c);
        Ok(())
    }

    /// Emits a quoted string: as written when it is case-sensitive or case is preserved,
    /// otherwise each letter raised or lowered at random.
    fn emit_char_val(&mut self, cv: &CharVal, out: &mut Vec<char>) -> (r: Result<(), GenError>)
        ensures
            final(self).same_setup(old(self)),
            final(self).steps == old(self).steps,
            r is Ok ==> extends(final(out)@, old(out)@) && char_val_matches(
                *cv,
                final(out)@,
                old(out)@.len() as int,
                final(out)@.len() as int,
            ),
            r matches Err(e) ==> walk_error(e, old(self).options, final(self).steps),
            (r, final(self).rng, final(out)@) == emitted_chars(
                cv.value@,
                !(cv.case_sensitive || old(self).options.preserve_case),
                old(self).options,
                old(self).rng,
                old(out)@,
                cv.value@.len(),
            ),
    {
        proof {
            use_type_invariant(&*self);
        }
        let ghost start = out@;
        let ghost vary = !(cv.case_sensitive || self.options.preserve_case);
        let ghost rng0 = self.rng;
        let chars = chars_of(cv.value.as_str());
        let mut k: usize = 0;
        while k < chars.len()
            invariant
                self.same_setup(old(self)),
                ranks_ok(*self.grammar, self.ranks@),
                self.steps == old(self).steps,
                chars@ == cv.value@,
                k <= chars@.len(),
                out@.len() == start.len() + k,
                extends(out@, start),
                forall|q: int| 0 <= q < k ==> char_matches(*cv, #[trigger] out@[start.len() + q], cv.value@[q]),
                vary == !(cv.case_sensitive || self.options.preserve_case),
                rng0 == old(self).rng,
                start == old(out)@,
                (Ok::<(), GenError>(()), self.rng, out@) == emitted_chars(cv.value@, vary, self.options, rng0, start, k as nat),
            decreases chars.len() - k,
        {
            let ch = chars[k];
            let ghost rng_k = self.rng;
            let emitted = if cv.case_sensitive || self.options.preserve_case {
                ch
            } else {
                let (up, next) = self.rng.coin();
                self.rng = next;
                if up {
                    upper_char(ch)
                } else {
                    lower_char(ch)
                }
            };
            proof {
                lemma_fold_changes_of_case(ch);
                assert(char_matches(*cv, emitted, ch));
            }
            let ghost before = out@;
            proof {
                assert(emitted_chars(cv.value@, vary, self.options, rng0, start, (k + 1) as nat).1 == self.rng);
                assert(emitted == (if !vary {
                    ch
                } else if mix(rng_k.advanced()) % 2 == 1 {
                    ascii_upper(ch)
                } else {
                    ascii_lower(ch)
                }));
            }
            match self.push_out(out, emitted) {
                Ok(()) => {},
                Err(e) => {
                    proof {
                        let prev = emitted_chars(cv.value@, vary, self.options, rng0, start, k as nat);
                        assert(prev == (Ok::<(), GenError>(()), rng_k, before));
                        assert(cv.value@[k as int] == ch);
                        assert(pushed(self.options, before, emitted) == (Err::<(), GenError>(e), out@));
                        assert(emitted_chars(cv.value@, vary, self.options, rng0, start, (k + 1) as nat) == (
                            Err::<(), GenError>(e),
                            self.rng,
                            out@,
                        ));
                        lemma_chars_stuck(cv.value@, vary, self.options, rng0, start, (k + 1) as nat, cv.value@.len());
                    }
                    return Err(e);
                },
            }
            proof {
                assert forall|q: int| 0 <= q < k + 1 implies char_matches(*cv, #[trigger] out@[start.len() + q], cv.value@[q]) by {
                    if q < k {
                        assert(out@[start.len() + q] == before[start.len() + q]);
                    }
                }
                assert forall|q: int| 0 <= q < start.len() implies #[trigger] out@[q] == start[q] by {
                    assert(out@[q] == before[q]);
                }
            }
            k = k + 1;
        }
        proof {
            assert(cv.value@.len() == k);
        }
        Ok(())
    }

    /// Emits a numeric terminal: its value, a scalar of its range chosen uniformly, or its
    /// values in order.
    fn emit_num_val(&mut self, v: &NumVal, out: &mut Vec<char>) -> (r: Result<(), GenError>)
        requires
            representable(*v),
            *v matches NumVal::Range { lo, hi } ==> lo <= hi,
        ensures
            final(self).same_setup(old(self)),
            final(self).steps == old(self).steps,
            r is Ok ==> extends(final(out)@, old(out)@) && num_val_matches(
                *v,
                final(out)@,
                old(out)@.len() as int,
                final(out)@.len() as int,
            ),
            r matches Err(e) ==> walk_error(e, old(self).options, final(self).steps),
            (r, final(self).rng, final(out)@) == emitted_num(*v, old(self).options, old(self).rng, old(out)@),
    {
        proof {
            use_type_invariant(&*self);
        }
        let ghost start = out@;
        match v {
            NumVal::Scalar(x) => {
                let x = *x;
                let c = match char_from_u32(x as u32) {
                    Some(c) => c,
                    None => {
                        return Ok(());
                    },
                };
                proof {
                    assert((x as u32) as int == x as int);
                    assert(c == char_of(x as int));
                }
                self.push_out(out, c)?;
                assert(out@[start.len() as int] == c);
                Ok(())
            },
            NumVal::Range { lo, hi } => {
                let lo = *lo;
                let hi = *hi;
                let count = scalar_count(lo, hi);
                let (k, next) = self.rng.below(count);
                self.rng = next;
                let x = nth_scalar(lo, hi, k);
                let c = match char_from_u32(x as u32) {
                    Some(c) => c,
                    None => {
                        return Ok(());
                    },
                };
                proof {
                    assert((x as u32) as int == x as int);
                    assert(c == char_of(x as int));
                }
                self.push_out(out, c)?;
                assert(out@[start.len() as int] == c);
                Ok(())
            },
            NumVal::Concat(values) => {
                let ghost vs = (*v)->Concat_0@;
                let mut k: usize = 0;
                while k < values.len()
                    invariant
                        self.same_setup(old(self)),
                        ranks_ok(*self.grammar, self.ranks@),
                        self.steps == old(self).steps,
                        vs == values@,
                        forall|q: int| 0 <= q < vs.len() ==> scalar_ok(#[trigger] vs[q] as int),
                        k <= vs.len(),
                        out@.len() == start.len() + k,
                        extends(out@, start),
                        forall|q: int| 0 <= q < k ==> #[trigger] out@[start.len() + q] as int == vs[q],
                        start == old(out)@,
                        self.rng == old(self).rng,
                        *v matches NumVal::Concat(w) && w@ == vs,
                        (Ok::<(), GenError>(()), out@) == emitted_values(vs, self.options, start, k as nat),
                    decreases values.len() - k,
                {
                    let x = values[k];
                    assert(scalar_ok(vs[k as int] as int));
                    let c = match char_from_u32(x as u32) {
                        Some(c) => c,
                        None => {
                            return Ok(());
                        },
                    };
                    let ghost before = out@;
                    proof {
                        assert((x as u32) as int == x as int);
                        assert(c == char_of(vs[k as int] as int));
                    }
                    match self.push_out(out, c) {
                        Ok(()) => {},
                        Err(e) => {
                            proof {
                                assert(emitted_values(vs, self.options, start, (k + 1) as nat) == (Err::<(), GenError>(e), out@));
                                lemma_values_stuck(vs, self.options, start, (k + 1) as nat, vs.len());
                            }
                            return Err(e);
                        },
                    }
                    proof {
                        assert((x as u32) as int == x as int);
                        assert(vs[k as int] == x);
                        assert(out@[start.len() + k as int] == c);
                        assert(out@[start.len() + k as int] as int == vs[k as int]);
                        assert forall|q: int| 0 <= q < k + 1 implies #[trigger] out@[start.len() + q] as int == vs[q] by {
                            if q < k {
                                assert(out@[start.len() + q] == before[start.len() + q]);
                            }
                        }
                        assert forall|q: int| 0 <= q < start.len() implies #[trigger] out@[q] == start[q] by {
                            assert(out@[q] == before[q]);
                        }
                    }
                    k = k + 1;
                }
                proof {
                    assert forall|q: int| 0 <= q < vs.len() implies #[trigger] out@[start.len() + q] as int == vs[q] by {}
                }
                Ok(())
            },
        }
    }

    /// Picks a branch of an alternation: never one that matches nothing; in witness mode the
    /// first of least rank, otherwise one of the others at random.
    fn choose_branch(&mut self, branches: &Vec<NodeId>, depth: usize) -> (b: usize)
        requires
            forall|k: int| 0 <= k < branches@.len() ==> (#[trigger] branches@[k]).spec_index() < old(self).ranks@.len(),
            exists|k: int| 0 <= k < branches@.len() && #[trigger] ranked(old(self).ranks@, branches@[k].spec_index() as int),
        ensures
            final(self).same_setup(old(self)),
            final(self).steps == old(self).steps,
            b < branches@.len(),
            ranked(old(self).ranks@, branches@[b as int].spec_index() as int),
            (b, final(self).rng) == chosen_branch(old(self).ranks@, branches@, old(self).options, depth, old(self).rng),
    {
        proof {
            use_type_invariant(&*self);
        }
        let ghost rk = self.ranks@;
        let ghost bs = branches@;
        let mut usable: Vec<usize> = Vec::new();
        let mut k: usize = 0;
        while k < branches.len()
            invariant
                self.same_setup(old(self)),
                self.steps == old(self).steps,
                k <= branches@.len(),
                forall|q: int| 0 <= q < branches@.len() ==> (#[trigger] branches@[q]).spec_index() < self.ranks@.len(),
                forall|q: int|
                    0 <= q < usable@.len() ==> (#[trigger] usable@[q]) < branches@.len() && ranked(
                        self.ranks@,
                        branches@[usable@[q] as int].spec_index() as int,
                    ),
                usable@.len() == 0 ==> forall|q: int|
                    0 <= q < k ==> !#[trigger] ranked(self.ranks@, branches@[q].spec_index() as int),
                rk == self.ranks@,
                bs == branches@,
                self.rng == old(self).rng,
                usable@ == usable_branches(rk, bs, k as int),
            decreases branches.len() - k,
        {
            if self.ranks[branches[k].index()].is_some() {
                usable.push(k);
            }
            k = k + 1;
        }
        if depth >= self.options.max_depth {
            let mut best = usable[0];
            let mut best_rank = match self.ranks[branches[best].index()] {
                Some(q) => q,
                None => u64::MAX,
            };
            let mut p: usize = 1;
            while p < usable.len()
                invariant
                    self.same_setup(old(self)),
                    forall|q: int| 0 <= q < branches@.len() ==> (#[trigger] branches@[q]).spec_index() < self.ranks@.len(),
                    forall|q: int|
                        0 <= q < usable@.len() ==> (#[trigger] usable@[q]) < branches@.len() && ranked(
                            self.ranks@,
                            branches@[usable@[q] as int].spec_index() as int,
                        ),
                    best < branches@.len(),
                    ranked(self.ranks@, branches@[best as int].spec_index() as int),
                    rk == self.ranks@,
                    bs == branches@,
                    1 <= p <= usable@.len(),
                    best == least_branch(rk, bs, usable@, p as int),
                    best_rank == branch_rank(rk, bs, best),
                decreases usable.len() - p,
            {
                let candidate = usable[p];
                let rank = match self.ranks[branches[candidate].index()] {
                    Some(q) => q,
                    None => u64::MAX,
                };
                if rank < best_rank {
                    best = candidate;
                    best_rank = rank;
                }
                p = p + 1;
            }
            proof {
                assert(usable@ == usable_branches(rk, bs, bs.len() as int));
            }
            return best;
        }
        proof {
            assert(usable@ == usable_branches(rk, bs, bs.len() as int));
        }
        let (pick, next) = self.rng.below(usable.len() as u64);
        self.rng = next;
        usable[pick as usize]
    }

    /// Picks how many times to repeat: the minimum in witness mode or when the body matches
    /// nothing, otherwise uniformly from `min..=min(max, min + spread)`.
    fn choose_count(&mut self, min: u64, max: Option<u64>, depth: usize, body_ok: bool) -> (c: u64)
        requires
            max matches Some(m) ==> min <= m,
        ensures
            final(self).same_setup(old(self)),
            final(self).steps == old(self).steps,
            min <= c,
            max matches Some(m) ==> c <= m,
            !body_ok ==> c == min,
            (c, final(self).rng) == chosen_count(min, max, depth, body_ok, old(self).options, old(self).rng),
    {
        proof {
            use_type_invariant(&*self);
        }
        if depth >= self.options.max_depth || !body_ok {
            return min;
        }
        let cap: u64 = match max {
            Some(m) => m,
            None => u64::MAX,
        };
        let spread: u64 = self.options.spread as u64;
        let reach: u64 = if min <= u64::MAX - spread {
            min + spread
        } else {
            u64::MAX
        };
        let ceiling: u64 = if cap < reach {
            cap
        } else {
            reach
        };
        if ceiling <= min {
            return min;
        }
        let width = ceiling - min;
        if width == u64::MAX {
            let (bits, next) = self.rng.next();
            self.rng = next;
            return bits;
        }
        let (pick, next) = self.rng.below(width + 1);
        self.rng = next;
        min + pick
    }

    /// Whether to take an optional's body: never when it matches nothing or in witness mode,
    /// otherwise on a coin toss.
    fn take_optional(&mut self, body: NodeId, depth: usize) -> (t: bool)
        requires
            body.spec_index() < old(self).ranks@.len(),
        ensures
            final(self).same_setup(old(self)),
            final(self).steps == old(self).steps,
            t ==> ranked(old(self).ranks@, body.spec_index() as int),
            (t, final(self).rng) == taken(old(self).ranks@, body, depth, old(self).options, old(self).rng),
    {
        proof {
            use_type_invariant(&*self);
        }
        if self.ranks[body.index()].is_none() {
            return false;
        }
        if depth >= self.options.max_depth {
            return false;
        }
        let (heads, next) = self.rng.coin();
        self.rng = next;
        heads
    }

    /// Emits one node's contribution to the output.
    #[verifier::spinoff_prover]
    #[verifier::rlimit(100)]
    fn walk(&mut self, node: NodeId, depth: usize, out: &mut Vec<char>, Ghost(f): Ghost<nat>) -> (r: Result<(), GenError>)
        requires
            node.spec_index() < old(self).grammar.spec_nodes().len(),
            ranked(old(self).ranks@, node.spec_index() as int),
            usable_from(*old(self).grammar, node.spec_index() as int),
            f + old(self).steps > u64::MAX,
        ensures
            (r, (final(self).rng, final(self).steps, final(out)@)) == walked(
                *old(self).grammar,
                old(self).ranks@,
                old(self).options,
                f,
                node.spec_index() as int,
                depth,
                (old(self).rng, old(self).steps, old(out)@),
            ),
            final(self).same_setup(old(self)),
            final(self).steps >= old(self).steps,
            r is Ok ==> extends(final(out)@, old(out)@) && reaches(
                *old(self).grammar,
                final(out)@,
                node.spec_index() as int,
                old(out)@.len() as int,
                final(out)@.len() as int,
            ),
            r matches Err(e) ==> walk_error(e, old(self).options, final(self).steps),
        decreases u64::MAX - old(self).steps,
    {
        proof {
            use_type_invariant(&*self);
            use_type_invariant(self.grammar);
        }
        let ghost g = *self.grammar;
        let ghost n = node.spec_index() as int;
        let ghost start = out@;
        let ghost steps0 = self.steps;
        let ghost rk = self.ranks@;
        let ghost o = self.options;
        let ghost rng0 = self.rng;
        match self.step() {
            Ok(()) => {},
            Err(e) => {
                return Err(e);
            },
        }
        let ghost steps1 = self.steps;
        proof {
            assert(step_after(o, steps0) == (Ok::<(), GenError>(()), steps1));
            assert(f >= 1);
        }
        let ghost st1 = (rng0, steps1, start);
        let grammar = self.grammar;
        proof {
            assert(walked(g, rk, o, f, n, depth, (rng0, steps0, start)) == walked_node(g, rk, o, f, n, depth, st1));
        }
        proof {
            lemma_children_below(g, n);
            assert(node_ok(g.spec_nodes(), g.spec_resolved(), g.spec_names(), g.spec_user_rules(), g.spec_user_nodes(), n));
            assert(rk[n] is Some);
            assert(settled(g, rk, n, rk[n]->Some_0));
            assert(extends(start, start));
        }
        match grammar.node(node) {
            Node::Alt { branches } => {
                let ghost bs = g.spec_nodes()[n]->Alt_branches@;
                assert(bs == branches@);
                proof {
                    let b = choose|b: int| 0 <= b < bs.len() && #[trigger] ranked_below(rk, bs[b].spec_index() as int, rk[n]->Some_0);
                    assert(ranked(rk, bs[b].spec_index() as int));
                }
                let b = self.choose_branch(branches, depth);
                let child = branches[b];
                proof {
                    assert(edge(g, n, child.spec_index() as int));
                    lemma_usable_edge(g, n, child.spec_index() as int);
                    assert(walked_node(g, rk, o, f, n, depth, st1) == walked(g, rk, o, (f - 1) as nat, child.spec_index() as int, depth, (self.rng, steps1, start)));
                }
                let res = self.walk(child, depth, out, Ghost((f - 1) as nat));
                if res.is_err() {
                    return res;
                }
                proof {
                    lemma_ok_unit(res);
                }
                proof {
                    lemma_alt_ends(g, out@, n, start.len() as int, out@.len() as int);
                    assert(reaches(g, out@, bs[b as int].spec_index() as int, start.len() as int, out@.len() as int));
                }
                Ok(())
            },
            Node::Concat { items } => {
                let ghost bs = g.spec_nodes()[n]->Concat_items@;
                assert(bs == items@);
                proof {
                    lemma_items_zero(g, start, n, start.len() as int);
                    assert forall|q: int| 0 <= q < bs.len() implies ranked(rk, (#[trigger] bs[q]).spec_index() as int)
                        && usable_from(g, bs[q].spec_index() as int) by {
                        assert(ranked_below(rk, bs[q].spec_index() as int, rk[n]->Some_0));
                        assert(edge(g, n, bs[q].spec_index() as int));
                        lemma_usable_edge(g, n, bs[q].spec_index() as int);
                    }
                }
                proof {
                    assert(walked_node(g, rk, o, f, n, depth, st1) == walked_items(g, rk, o, (f - 1) as nat, bs, depth, bs.len() as int, st1));
                    reveal(walk_is_items);
                    lemma_items_begin(g, rk, o, (f - 1) as nat, bs, depth, st1);
                }
                let mut k: usize = 0;
                while k < items.len()
                    invariant
                        self.same_setup(old(self)),
                        self.steps > steps0,
                        steps0 == old(self).steps,
                        g == *self.grammar,
                        g == *old(self).grammar,
                        rk == self.ranks@,
                        g.wf(),
                        0 <= n < g.spec_nodes().len(),
                        g.spec_nodes()[n] is Concat,
                        bs == g.spec_nodes()[n]->Concat_items@,
                        bs == items@,
                        forall|q: int| 0 <= q < bs.len() ==> (#[trigger] bs[q]).spec_index() < g.spec_nodes().len()
                            && ranked(rk, bs[q].spec_index() as int) && usable_from(g, bs[q].spec_index() as int),
                        k <= bs.len(),
                        extends(out@, start),
                        items_ends(g, out@, n, k as int, start.len() as int).contains(out@.len() as int),
                        o == self.options,
                        o == old(self).options,
                        f + steps0 > u64::MAX,
                        steps1 == steps0 + 1,
                        self.steps >= steps1,
                        rng0 == old(self).rng,
                        start == old(out)@,
                        n == node.spec_index(),
                        walk_is_items(g, rk, o, f, n, depth, (rng0, steps0, start), bs, (rng0, steps1, start)),
                        items_went(g, rk, o, (f - 1) as nat, bs, depth, k as int, (rng0, steps1, start), (self.rng, self.steps, out@)),
                    decreases items.len() - k,
                {
                    let ghost mid = out@;
                    let ghost rng_k = self.rng;
                    let ghost steps_k = self.steps;
                    let item = items[k];
                    assert(item == bs[k as int]);
                    let res = self.walk(item, depth, out, Ghost((f - 1) as nat));
                    proof {
                        lemma_items_advance(g, rk, o, f, n, depth, (rng0, steps0, start), bs, (rng0, steps1, start), k as int, (rng_k, steps_k, mid), res, (self.rng, self.steps, out@));
                    }
                    if res.is_err() {
                        return res;
                    }
                    proof {
                        lemma_ok_unit(res);
                        lemma_items_ends_extend(g, mid, out@, n, k as int, start.len() as int, mid.len() as int);
                        lemma_items_step(g, out@, n, k as int, start.len() as int);
                        assert(items_of(g, n)[k as int] == item);
                        assert(ends(g, out@, item.spec_index() as int, mid.len() as int).contains(out@.len() as int));
                        assert(step(g, out@, item.spec_index() as int, items_ends(g, out@, n, k as int, start.len() as int)).contains(out@.len() as int));
                        lemma_extends_trans(start, mid, out@);
                    }
                    k = k + 1;
                }
                proof {
                    lemma_concat_ends(g, out@, n, start.len() as int);
                    assert(ends(g, out@, n, start.len() as int).contains(out@.len() as int));
                    lemma_items_end(g, rk, o, f, n, depth, (rng0, steps0, start), bs, (rng0, steps1, start), (self.rng, self.steps, out@));
                }
                Ok(())
            },
            Node::Repeat { repeat, body, .. } => {
                let repeat = *repeat;
                let body = *body;
                let body_ok = self.ranks[body.index()].is_some();
                proof {
                    if !body_ok {
                        assert(repeat.min == 0);
                    }
                }
                let count = self.choose_count(repeat.min, repeat.max, depth, body_ok);
                let ghost rng_c = self.rng;
                proof {
                    lemma_rep_zero(g, start, n, start.len() as int);
                    if count > 0 {
                        assert(repeat.max != Some(0u64));
                        assert(edge(g, n, body.spec_index() as int));
                        lemma_usable_edge(g, n, body.spec_index() as int);
                    }
                }
                proof {
                    assert(walked_node(g, rk, o, f, n, depth, st1) == walked_copies(g, rk, o, (f - 1) as nat, body.spec_index() as int, depth, count as nat, (rng_c, steps1, start)));
                    reveal(walk_is_copies);
                    lemma_copies_begin(g, rk, o, (f - 1) as nat, body.spec_index() as int, depth, (rng_c, steps1, start));
                }
                let mut c: u64 = 0;
                while c < count
                    invariant
                        self.same_setup(old(self)),
                        self.steps > steps0,
                        steps0 == old(self).steps,
                        g == *self.grammar,
                        g == *old(self).grammar,
                        rk == self.ranks@,
                        g.wf(),
                        0 <= n < g.spec_nodes().len(),
                        g.spec_nodes()[n] is Repeat,
                        crate::language::body_of(g, n) == body.spec_index(),
                        body.spec_index() < g.spec_nodes().len(),
                        count > 0 ==> ranked(rk, body.spec_index() as int) && usable_from(g, body.spec_index() as int),
                        c <= count,
                        extends(out@, start),
                        rep_ends(g, out@, n, c as nat, start.len() as int).contains(out@.len() as int),
                        o == self.options,
                        o == old(self).options,
                        f + steps0 > u64::MAX,
                        steps1 == steps0 + 1,
                        self.steps >= steps1,
                        rng0 == old(self).rng,
                        start == old(out)@,
                        n == node.spec_index(),
                        walk_is_copies(g, rk, o, f, n, depth, (rng0, steps0, start), body.spec_index() as int, count as nat, (rng_c, steps1, start)),
                        copies_went(g, rk, o, (f - 1) as nat, body.spec_index() as int, depth, c as nat, (rng_c, steps1, start), (self.rng, self.steps, out@)),
                    decreases count - c,
                {
                    let ghost mid = out@;
                    let ghost rng_k = self.rng;
                    let ghost steps_k = self.steps;
                    let res = self.walk(body, depth, out, Ghost((f - 1) as nat));
                    proof {
                        lemma_copies_advance(g, rk, o, f, n, depth, (rng0, steps0, start), body.spec_index() as int, count as nat, (rng_c, steps1, start), c as nat, (rng_k, steps_k, mid), res, (self.rng, self.steps, out@));
                    }
                    if res.is_err() {
                        return res;
                    }
                    proof {
                        lemma_ok_unit(res);
                        lemma_rep_ends_extend(g, mid, out@, n, c as nat, start.len() as int, mid.len() as int);
                        lemma_rep_step(g, out@, n, c as nat, start.len() as int);
                        assert(ends(g, out@, body.spec_index() as int, mid.len() as int).contains(out@.len() as int));
                        assert(step(g, out@, body.spec_index() as int, rep_ends(g, out@, n, c as nat, start.len() as int)).contains(out@.len() as int));
                        lemma_extends_trans(start, mid, out@);
                    }
                    c = c + 1;
                }
                proof {
                    lemma_copies_end(g, rk, o, f, n, depth, (rng0, steps0, start), body.spec_index() as int, count as nat, (rng_c, steps1, start), (self.rng, self.steps, out@));
                    assert(count_allowed(repeat, count as nat));
                    lemma_repeat_ends(g, out@, n, start.len() as int, out@.len() as int);
                    assert(rep_ends(g, out@, n, count as nat, start.len() as int).contains(out@.len() as int));
                }
                Ok(())
            },
            Node::Optional { body } => {
                let body = *body;
                let take = self.take_optional(body, depth);
                proof {
                    if take {
                        assert(walked_node(g, rk, o, f, n, depth, st1) == walked(g, rk, o, (f - 1) as nat, body.spec_index() as int, depth, (self.rng, steps1, start)));
                    } else {
                        assert(walked_node(g, rk, o, f, n, depth, st1) == (Ok::<(), GenError>(()), (self.rng, steps1, start)));
                    }
                }
                if take {
                    proof {
                        assert(edge(g, n, body.spec_index() as int));
                        lemma_usable_edge(g, n, body.spec_index() as int);
                    }
                    let res = self.walk(body, depth, out, Ghost((f - 1) as nat));
                    if res.is_err() {
                        return res;
                    }
                    proof {
                        lemma_ok_unit(res);
                    }
                }
                proof {
                    lemma_optional_ends(g, out@, n, start.len() as int);
                    if take {
                        assert(ends(g, out@, body.spec_index() as int, start.len() as int).contains(out@.len() as int));
                    } else {
                        assert(out@ == start);
                    }
                    assert(ends(g, out@, n, start.len() as int).contains(out@.len() as int));
                }
                Ok(())
            },
            Node::RuleRef { .. } => {
                let t = match grammar.target(node) {
                    Some(t) => t,
                    None => {
                        proof {
                            assert(walked_node(g, rk, o, f, n, depth, st1) == (Ok::<(), GenError>(()), st1));
                        }
                        return Ok(());
                    },
                };
                let body = grammar.rule_by_id(t).body;
                proof {
                    assert(g.spec_rules()[g.spec_rule_index(t)] == g.spec_rule(t));
                    assert(edge(g, n, body.spec_index() as int));
                    lemma_usable_edge(g, n, body.spec_index() as int);
                    assert(ranked_below(rk, body.spec_index() as int, rk[n]->Some_0));
                }
                let next_depth = if depth < usize::MAX {
                    depth + 1
                } else {
                    depth
                };
                proof {
                    assert(next_depth == deeper(depth));
                    assert(walked_node(g, rk, o, f, n, depth, st1) == walked(g, rk, o, (f - 1) as nat, body.spec_index() as int, next_depth, st1));
                }
                let res = self.walk(body, next_depth, out, Ghost((f - 1) as nat));
                if res.is_err() {
                    return res;
                }
                proof {
                    lemma_ok_unit(res);
                }
                proof {
                    lemma_ref_ends(g, out@, n, start.len() as int);
                    assert(ends(g, out@, body.spec_index() as int, start.len() as int).contains(out@.len() as int));
                    assert(ends(g, out@, n, start.len() as int).contains(out@.len() as int));
                }
                Ok(())
            },
            Node::CharVal(cv) => {
                proof {
                    let e = emitted_chars(cv.value@, !(cv.case_sensitive || o.preserve_case), o, rng0, start, cv.value@.len());
                    assert(walked_node(g, rk, o, f, n, depth, st1) == (e.0, (e.1, steps1, e.2)));
                }
                let res = self.emit_char_val(cv, out);
                if res.is_err() {
                    return res;
                }
                proof {
                    lemma_ok_unit(res);
                }
                proof {
                    lemma_terminal_ends(g, out@, n, start.len() as int, out@.len() as int);
                    assert(derives(g, out@, n, start.len() as int, out@.len() as int, 0));
                }
                Ok(())
            },
            Node::NumVal { value, .. } => {
                proof {
                    lemma_usable_self(g, n);
                    let e = emitted_num(*value, o, rng0, start);
                    assert(walked_node(g, rk, o, f, n, depth, st1) == (e.0, (e.1, steps1, e.2)));
                }
                let res = self.emit_num_val(value, out);
                if res.is_err() {
                    return res;
                }
                proof {
                    lemma_ok_unit(res);
                }
                proof {
                    lemma_terminal_ends(g, out@, n, start.len() as int, out@.len() as int);
                    assert(derives(g, out@, n, start.len() as int, out@.len() as int, 0));
                }
                Ok(())
            },
            Node::ProseVal(_) => {
                proof {
                    lemma_usable_self(g, n);
                    assert(walked_node(g, rk, o, f, n, depth, st1) == (Ok::<(), GenError>(()), st1));
                }
                Ok(())
            },
        }
    }

    /// Generates one string that `rule` accepts.
    ///
    /// The rule is checked before anything is emitted: an unknown rule, or one that reaches
    /// a prose value or an unrepresentable terminal, is refused as
    /// [`CheckedGrammar::can_generate`] refuses it, and one that matches no string at all is
    /// [`GenError::NoFiniteExpansion`]. Otherwise the only errors are the resource limits.
    pub fn generate(&mut self, rule: &str) -> (r: Result<String, GenError>)
        ensures
            final(self).spec_grammar() == old(self).spec_grammar(),
            final(self).spec_options() == old(self).spec_options(),
            final(self).spec_ranks() == old(self).spec_ranks(),
            r is Ok ==> (old(self).spec_options().max_steps matches Some(l) ==> final(self).spec_steps() <= l),
            (forall|i: int|
                #![trigger start_usable(old(self).spec_grammar(), rule@, i)]
                start_usable(old(self).spec_grammar(), rule@, i) ==> old(self).spec_ranks()[old(
                    self,
                ).spec_grammar().spec_rules()[i].body.spec_index() as int] is None) ==> final(self).spec_rng()
                == old(self).spec_rng() && final(self).spec_steps() == old(self).spec_steps(),
            forall|i: int|
                #![trigger start_usable(old(self).spec_grammar(), rule@, i)]
                start_usable(old(self).spec_grammar(), rule@, i) && old(self).spec_ranks()[old(
                    self,
                ).spec_grammar().spec_rules()[i].body.spec_index() as int] is Some ==> {
                    let w = generation(
                        old(self).spec_grammar(),
                        old(self).spec_ranks(),
                        old(self).spec_options(),
                        old(self).spec_rng(),
                        old(self).spec_grammar().spec_rules()[i].body.spec_index() as int,
                    );
                    &&& final(self).spec_rng() == w.1.0
                    &&& final(self).spec_steps() == w.1.1
                    &&& match r {
                        Ok(text) => w.0 is Ok && text@ == w.1.2,
                        Err(e) => w.0 == Err::<(), GenError>(e),
                    }
                },
            match r {
                Ok(text) => exists|i: int|
                    start_usable(old(self).spec_grammar(), rule@, i) && reaches(
                        old(self).spec_grammar(),
                        text@,
                        old(self).spec_grammar().spec_rules()[i].body.spec_index() as int,
                        0,
                        text@.len() as int,
                    ),
                Err(e) => gen_gate_error(old(self).spec_grammar(), rule@, e) || exists|i: int|
                    start_usable(old(self).spec_grammar(), rule@, i) && match e {
                        GenError::NoFiniteExpansion { rule: name } => {
                            &&& name@ == old(self).spec_grammar().spec_rules()[i].name@
                            &&& forall|s: Seq<char>, a: int, b: int|
                                !#[trigger] reaches(
                                    old(self).spec_grammar(),
                                    s,
                                    old(self).spec_grammar().spec_rules()[i].body.spec_index() as int,
                                    a,
                                    b,
                                )
                        },
                        _ => walk_error(e, old(self).spec_options(), final(self).spec_steps())
                            && derivable(
                            old(self).spec_grammar(),
                            old(self).spec_grammar().spec_rules()[i].body.spec_index() as int,
                        ),
                    },
            },
    {
        proof {
            use_type_invariant(&*self);
            use_type_invariant(self.grammar);
        }
        let ghost g = *self.grammar;
        let grammar = self.grammar;
        let i = match grammar.rule_position(rule) {
            Some(i) => i,
            None => {
                return Err(GenError::UnknownRule(rule.to_owned()));
            },
        };
        grammar.can_generate(rule)?;
        proof {
            assert(names_rule(g, rule@, i as int));
            let w = choose|w: int| start_usable(g, rule@, w);
            assert(w == i as int) by {
                if w < i {
                } else if i < w {
                }
            }
        }
        let body = grammar.rule_at(i).body;
        if self.ranks[body.index()].is_none() {
            proof {
                assert forall|s: Seq<char>, a: int, b: int|
                    !#[trigger] reaches(g, s, body.spec_index() as int, a, b) by {
                    if reaches(g, s, body.spec_index() as int, a, b) {
                        let h = choose|h: nat| #[trigger] derives(g, s, body.spec_index() as int, a, b, h);
                        lemma_derives_ranked(g, self.ranks@, s, body.spec_index() as int, a, b, h);
                    }
                }
            }
            return Err(GenError::NoFiniteExpansion { rule: grammar.rule_at(i).name.as_str().to_owned() });
        }
        proof {
            let (t, h) = lemma_ranked_derives(g, self.ranks@, body.spec_index() as int);
            assert(reaches(g, t, body.spec_index() as int, 0, t.len() as int));
        }
        let mut out: Vec<char> = Vec::new();
        let ghost rng0 = self.rng;
        self.steps = 0;
        let res = self.walk(body, 0, &mut out, Ghost((u64::MAX + 1) as nat));
        proof {
            assert(res == generation(g, self.ranks@, self.options, rng0, body.spec_index() as int).0);
            assert(body.spec_index() == g.spec_rules()[i as int].body.spec_index());
        }
        match res {
            Ok(()) => {
                proof {
                    if let Some(l) = self.options.max_steps {
                        lemma_walked_within(g, self.ranks@, self.options, (u64::MAX + 1) as nat, body.spec_index() as int, 0, (rng0, 0, Seq::empty()), l);
                    }
                }
                let text = string_of(&out);
                Ok(text)
            },
            Err(e) => Err(e),
        }
    }
}

/// Generation is deterministic: what [`Generator::generate`] answers for a rule, and the state
/// it leaves, are a function of the grammar, the ranks, the options and the random state it
/// starts from. A fresh generator's ranks and random state are fixed by its grammar and seed
/// ([`Generator::new`]), so the same grammar, seed, options and sequence of requests give the
/// same strings. Stated here for one request: any two answers that walk agrees with are equal.
pub proof fn lemma_generation_is_deterministic(
    g: CheckedGrammar,
    rk: Seq<Option<u64>>,
    o: GenOptions,
    rng: SplitMix64,
    body: int,
    a: Result<Seq<char>, GenError>,
    b: Result<Seq<char>, GenError>,
)
    requires
        match a {
            Ok(text) => generation(g, rk, o, rng, body).0 is Ok && text == generation(g, rk, o, rng, body).1.2,
            Err(e) => generation(g, rk, o, rng, body).0 == Err::<(), GenError>(e),
        },
        match b {
            Ok(text) => generation(g, rk, o, rng, body).0 is Ok && text == generation(g, rk, o, rng, body).1.2,
            Err(e) => generation(g, rk, o, rng, body).0 == Err::<(), GenError>(e),
        },
    ensures
        a == b,
{
}

/// Everything the generator produces, the recognizer accepts: when `generate` returns a
/// string for a rule, and a recognizer bound to that string answers for the same rule of
/// the same grammar, the answer is yes.
pub proof fn lemma_generated_is_accepted(g: CheckedGrammar, name: Seq<char>, text: Seq<char>, answer: bool)
    requires
        exists|i: int| start_usable(g, name, i) && reaches(g, text, g.spec_rules()[i].body.spec_index() as int, 0, text.len() as int),
        exists|i: int| start_usable(g, name, i) && answer == reaches(g, text, g.spec_rules()[i].body.spec_index() as int, 0, text.len() as int),
    ensures
        answer,
{
    let i = choose|i: int| start_usable(g, name, i) && reaches(g, text, g.spec_rules()[i].body.spec_index() as int, 0, text.len() as int);
    let k = choose|k: int| start_usable(g, name, k) && answer == reaches(g, text, g.spec_rules()[k].body.spec_index() as int, 0, text.len() as int);
    assert(i == k) by {
        if i < k {
            assert(crate::text::fold_case(g.spec_rules()[i].name@) == crate::text::fold_case(name));
        } else if k < i {
            assert(crate::text::fold_case(g.spec_rules()[k].name@) == crate::text::fold_case(name));
        }
    }
}

} // verus!
