//! Grammar text to [`Grammar`]: hand-written recursive descent.
//!
//! Syntax only. Local rewrites that need no knowledge of other rules are applied here (`*1a`
//! to `[a]`, `1*1a` to `a`, numeric spelling, redundant groups); merging `=/`, resolving names
//! and assigning node ids are `check`'s job.
//!
//! The function set mirrors the productions of RFC 5234 section 4 with Errata 2968 and 3076
//! and the RFC 7405 amendments one for one. The one leniency is line endings: CRLF, LF and CR
//! are all accepted unless `ParseOptions::strict_crlf` is set, when only CRLF is.
use vstd::prelude::*;

use crate::ast::{
    def_tree, def_trees, lemma_trees_of_concat, lemma_trees_of_len, lemma_trees_of_push, tree_of, trees_of,
    DefTree, NumTree, Tree, definition_wf, element_wf, is_alpha, is_digit, is_prose_char, is_quoted_char, is_rule_name,
    CharVal, DefinedAs, Definition, Element, Grammar, Ignored, NumVal, ParseOptions, Repeat,
    RuleName, Span,
};
use crate::error::ParseError;
use crate::text::push_char;
use vstd::string::StringSliceAdditionalSpecFns;

verus! {

/// Whether every byte of `b` is ASCII.
pub open spec fn all_ascii(b: Seq<u8>) -> bool {
    forall|i: int| 0 <= i < b.len() ==> b[i] < 0x80
}

/// Whether byte `k` of `b[lo..hi]` is no bare line ending: a CR there is followed by an LF in
/// the range, and an LF there is preceded by a CR in it.
pub open spec fn well_ended(b: Seq<u8>, lo: int, hi: int, k: int) -> bool {
    &&& b[k] == 0x0D ==> k + 1 < hi && b[k + 1] == 0x0A
    &&& b[k] == 0x0A ==> k > lo && b[k - 1] == 0x0D
}

/// Whether no byte of `b[lo..hi]` is a bare CR or a bare LF.
pub open spec fn crlf_only(b: Seq<u8>, lo: int, hi: int) -> bool {
    forall|k: int| lo <= k < hi ==> #[trigger] well_ended(b, lo, hi, k)
}

proof fn lemma_crlf_join(b: Seq<u8>, lo: int, mid: int, hi: int)
    requires
        lo <= mid <= hi,
        crlf_only(b, lo, mid),
        crlf_only(b, mid, hi),
    ensures
        crlf_only(b, lo, hi),
{
    assert forall|k: int| lo <= k < hi implies #[trigger] well_ended(b, lo, hi, k) by {
        if k < mid {
            assert(well_ended(b, lo, mid, k));
        } else {
            assert(well_ended(b, mid, hi, k));
        }
    }
}

/// A byte that is no line ending extends a range free of bare line endings.
proof fn lemma_crlf_step(b: Seq<u8>, lo: int, hi: int)
    requires
        lo <= hi < b.len(),
        crlf_only(b, lo, hi),
        b[hi] != 0x0D,
        b[hi] != 0x0A,
    ensures
        crlf_only(b, lo, hi + 1),
{
    assert forall|k: int| lo <= k < hi + 1 implies #[trigger] well_ended(b, lo, hi + 1, k) by {
        if k < hi {
            assert(well_ended(b, lo, hi, k));
        }
    }
}

/// Whether `b` is a space or a horizontal tab: `WSP`.
pub open spec fn is_wsp(b: u8) -> bool {
    b == 0x20 || b == 0x09
}

/// Whether `b` can begin a `repetition`: a repeat count or an element.
pub open spec fn starts_repetition(b: u8) -> bool {
    ||| is_alpha(b as char)
    ||| is_digit(b as char)
    ||| b == 0x2A
    ||| b == 0x28
    ||| b == 0x5B
    ||| b == 0x22
    ||| b == 0x25
    ||| b == 0x3C
}

/// The value of `b` as a digit in `base`, if it is one.
pub open spec fn digit_value(b: u8, base: u64) -> Option<u64> {
    let v: int = if 0x30 <= b <= 0x39 {
        b - 0x30
    } else if 0x41 <= b <= 0x46 {
        b - 0x41 + 10
    } else if 0x61 <= b <= 0x66 {
        b - 0x61 + 10
    } else {
        99
    };
    if v < base {
        Some(v as u64)
    } else {
        None
    }
}

/// A grammar whose every definition is in canonical form.
pub open spec fn grammar_wf(g: Grammar) -> bool {
    forall|i: int|
        0 <= i < g.spec_definitions().len() ==> definition_wf(#[trigger] g.spec_definitions()[i])
}

/// The span from `a` to `b`.
pub open spec fn span_of(a: int, b: int) -> Span {
    Span { start: a as u32, end: b as u32 }
}

/// Whether byte `x` of `b` is at `pos`.
pub open spec fn byte_at(b: Seq<u8>, pos: int, x: u8) -> bool {
    0 <= pos < b.len() && b[pos] == x
}

/// The error for a construct `what` that is missing at `pos`: the end of the text, or the
/// byte found there.
pub open spec fn missing(b: Seq<u8>, pos: int, what: &'static str) -> ParseError {
    if pos >= b.len() {
        ParseError::UnexpectedEof { span: span_of(pos, pos) }
    } else {
        ParseError::Expected { what, span: span_of(pos, pos + 1) }
    }
}

/// The kinds of byte a scan runs over.
pub enum ByteClass {
    /// `WSP`: a space or a tab.
    Wsp,
    /// What a comment holds: `WSP / VCHAR`.
    Comment,
    /// What follows the first letter of a rule name: `ALPHA / DIGIT / "-"`.
    NameTail,
    /// What a quoted string holds: `%x20-21 / %x23-7E`.
    Quoted,
    /// What a prose value holds: `%x20-3D / %x3F-7E`.
    Prose,
    /// A digit in the given base.
    Digits(u64),
}

/// Whether byte `x` is of class `c`.
pub open spec fn in_class(c: ByteClass, x: u8) -> bool {
    match c {
        ByteClass::Wsp => is_wsp(x),
        ByteClass::Comment => x == 0x09 || (0x20 <= x <= 0x7E),
        ByteClass::NameTail => is_alpha(x as char) || is_digit(x as char) || x == 0x2D,
        ByteClass::Quoted => (0x20 <= x <= 0x21) || (0x23 <= x <= 0x7E),
        ByteClass::Prose => (0x20 <= x <= 0x3D) || (0x3F <= x <= 0x7E),
        ByteClass::Digits(base) => digit_value(x, base) is Some,
    }
}

/// Where the longest run of bytes of class `c` from `p` ends.
pub open spec fn run_end(b: Seq<u8>, p: int, c: ByteClass) -> int
    decreases b.len() - p,
{
    if 0 <= p < b.len() && in_class(c, b[p]) {
        run_end(b, p + 1, c)
    } else {
        p
    }
}

/// The bytes of `b` from `a` to `e`, as characters.
pub open spec fn text_of(b: Seq<u8>, a: int, e: int) -> Seq<char> {
    Seq::new((e - a) as nat, |i: int| b[a + i] as char)
}

/// The line ending at `pos`, and where it ends: CRLF, or, unless strict, a bare LF or CR;
/// under strict a bare one is an error.
pub open spec fn newline_at(b: Seq<u8>, strict: bool, pos: int) -> Result<Option<int>, ParseError> {
    if byte_at(b, pos, 0x0D) {
        if byte_at(b, pos + 1, 0x0A) {
            Ok(Some(pos + 2))
        } else if strict {
            Err(ParseError::ExpectedCrlf { span: span_of(pos, pos + 1) })
        } else {
            Ok(Some(pos + 1))
        }
    } else if byte_at(b, pos, 0x0A) {
        if strict {
            Err(ParseError::ExpectedCrlf { span: span_of(pos, pos + 1) })
        } else {
            Ok(Some(pos + 1))
        }
    } else {
        Ok(None)
    }
}

/// `c-nl` at `pos`: a comment running to a line ending, or a line ending; where it ends.
pub open spec fn c_nl_at(b: Seq<u8>, strict: bool, pos: int) -> Result<Option<int>, ParseError> {
    if byte_at(b, pos, 0x3B) {
        let q = run_end(b, pos + 1, ByteClass::Comment);
        if newline_at(b, strict, q) == Ok::<Option<int>, ParseError>(None) {
            Err(missing(b, q, "end of comment"))
        } else {
            newline_at(b, strict, q)
        }
    } else {
        newline_at(b, strict, pos)
    }
}

/// `*c-wsp` from `p`, taken greedily: where it ends, or the error a bad line ending raises.
#[verifier::opaque]
pub open spec fn cwsp_end(b: Seq<u8>, strict: bool, p: int) -> Result<int, ParseError>
    decreases b.len() - p,
{
    if 0 <= p < b.len() && is_wsp(b[p]) {
        cwsp_end(b, strict, p + 1)
    } else {
        match c_nl_at(b, strict, p) {
            Err(e) => Err(e),
            Ok(Some(q)) => if 0 <= p && 0 <= q < b.len() && is_wsp(b[q]) && p < q {
                cwsp_end(b, strict, q + 1)
            } else {
                Ok(p)
            },
            Ok(None) => Ok(p),
        }
    }
}

/// Whether an optional position found by the parser is the one the specification gives.
pub open spec fn agrees_opt(r: Result<Option<usize>, ParseError>, s: Result<Option<int>, ParseError>) -> bool {
    match r {
        Ok(Some(q)) => s == Ok::<Option<int>, ParseError>(Some(q as int)),
        Ok(None) => s == Ok::<Option<int>, ParseError>(None),
        Err(e) => s == Err::<Option<int>, ParseError>(e),
    }
}

/// Whether a position found by the parser is the one the specification gives.
pub open spec fn agrees_pos(r: Result<usize, ParseError>, s: Result<int, ParseError>) -> bool {
    match r {
        Ok(q) => s == Ok::<int, ParseError>(q as int),
        Err(e) => s == Err::<int, ParseError>(e),
    }
}

/// The value of the digits `b[a..e]` in `base`.
pub open spec fn digits_value(b: Seq<u8>, a: int, e: int, base: u64) -> nat
    decreases e - a,
{
    if e <= a {
        0
    } else {
        digits_value(b, a, e - 1, base) * (base as nat) + match digit_value(b[e - 1], base) {
            Some(d) => d as nat,
            None => 0nat,
        }
    }
}

/// A longer run of digits is worth at least as much.
proof fn lemma_digits_value_grows(b: Seq<u8>, a: int, e: int, f: int, base: u64)
    requires
        a <= e <= f,
        base >= 1,
    ensures
        digits_value(b, a, e, base) <= digits_value(b, a, f, base),
    decreases f - e,
{
    if e < f {
        lemma_digits_value_grows(b, a, e, f - 1, base);
        let v = digits_value(b, a, f - 1, base);
        assert(v * (base as nat) >= v) by (nonlinear_arith)
            requires
                base >= 1,
        ;
    }
}

/// A run ends at or after where it starts, and every byte before its end is of its class.
proof fn lemma_run_end(b: Seq<u8>, p: int, c: ByteClass)
    requires
        0 <= p <= b.len(),
    ensures
        p <= run_end(b, p, c) <= b.len(),
        forall|k: int| p <= k < run_end(b, p, c) ==> in_class(c, #[trigger] b[k]),
        run_end(b, p, c) < b.len() ==> !in_class(c, b[run_end(b, p, c)]),
    decreases b.len() - p,
{
    if p < b.len() && in_class(c, b[p]) {
        lemma_run_end(b, p + 1, c);
    }
}

/// `quoted-string` with its opening quote at `pos`: its text and where it ends.
pub open spec fn quoted_at(b: Seq<u8>, pos: int) -> Result<(Seq<char>, int), ParseError> {
    let q = run_end(b, pos + 1, ByteClass::Quoted);
    if byte_at(b, q, 0x22) {
        Ok((text_of(b, pos + 1, q), q + 1))
    } else {
        Err(missing(b, q, "closing quote"))
    }
}

/// `prose-val` with its opening bracket at `pos`: its text and where it ends.
pub open spec fn prose_at(b: Seq<u8>, pos: int) -> Result<(Seq<char>, int), ParseError> {
    let q = run_end(b, pos + 1, ByteClass::Prose);
    if byte_at(b, q, 0x3E) {
        Ok((text_of(b, pos + 1, q), q + 1))
    } else {
        Err(missing(b, q, "closing angle bracket"))
    }
}

/// What is wrong with the digits `b[a..e]` in `base`: none at all, or a value over `u64::MAX`.
pub open spec fn digits_flaw(b: Seq<u8>, a: int, e: int, base: u64) -> Option<ParseError> {
    if e == a {
        Some(missing(b, a, "digit"))
    } else if digits_value(b, a, e, base) > u64::MAX {
        Some(ParseError::NumberTooLarge { span: span_of(a, e) })
    } else {
        None
    }
}

/// `*("." 1*DIGIT)` from `q`: the dotted values and where they end.
pub open spec fn dots_at(b: Seq<u8>, q: int, base: u64) -> Result<(Seq<u64>, int), ParseError>
    decreases b.len() - q,
{
    if byte_at(b, q, 0x2E) {
        let e = run_end(b, q + 1, ByteClass::Digits(base));
        match digits_flaw(b, q + 1, e, base) {
            Some(err) => Err(err),
            None => if q < e <= b.len() {
                match dots_at(b, e, base) {
                    Err(err) => Err(err),
                    Ok((vs, end)) => Ok((seq![digits_value(b, q + 1, e, base) as u64] + vs, end)),
                }
            } else {
                Ok((Seq::empty(), e))
            },
        }
    } else {
        Ok((Seq::empty(), q))
    }
}

/// Dotted values `pre`, then what `r` gives, as one concatenation.
pub open spec fn glue_values(pre: Seq<u64>, r: Result<(Seq<u64>, int), ParseError>) -> Result<(NumTree, int), ParseError> {
    match r {
        Err(e) => Err(e),
        Ok((vs, end)) => Ok((NumTree::Concat(pre + vs), end)),
    }
}

/// `num-val` after its radix letter at `pos`: its value and where it ends.
pub open spec fn num_val_at(b: Seq<u8>, pos: int, base: u64) -> Result<(NumTree, int), ParseError> {
    let e = run_end(b, pos + 1, ByteClass::Digits(base));
    let v = digits_value(b, pos + 1, e, base) as u64;
    match digits_flaw(b, pos + 1, e, base) {
        Some(err) => Err(err),
        None => if byte_at(b, e, 0x2D) {
            let f = run_end(b, e + 1, ByteClass::Digits(base));
            match digits_flaw(b, e + 1, f, base) {
                Some(err) => Err(err),
                None => Ok((NumTree::Range(v, digits_value(b, e + 1, f, base) as u64), f)),
            }
        } else if byte_at(b, e, 0x2E) {
            glue_values(seq![v], dots_at(b, e, base))
        } else {
            Ok((NumTree::Scalar(v), e))
        },
    }
}

/// A value `r` found by a production, with its tree passed through `f`.
pub open spec fn map_tree<A>(r: Result<(A, int), ParseError>, f: spec_fn(A) -> Tree) -> Result<(Tree, int), ParseError> {
    match r {
        Err(e) => Err(e),
        Ok((a, q)) => Ok((f(a), q)),
    }
}

/// A `num-val` after its radix letter at `pos`, as an element: what it is and where it ends.
pub open spec fn num_elem_at(b: Seq<u8>, pos: int, base: u64) -> Result<(Tree, int), ParseError> {
    map_tree(num_val_at(b, pos, base), |n: NumTree| Tree::Num(n))
}

/// A group or an option with its opening bracket at `pos`, closed by `close`: what it is and
/// where it ends.
pub open spec fn group_at(b: Seq<u8>, strict: bool, pos: int, close: u8) -> Result<(Tree, int), ParseError>
    decreases b.len() - pos, 0int,
{
    match cwsp_end(b, strict, pos + 1) {
        Err(e) => Err(e),
        Ok(p1) => if pos < p1 <= b.len() {
            match alternation_at(b, strict, p1) {
                Err(e) => Err(e),
                Ok((t, p2)) => match cwsp_end(b, strict, p2) {
                    Err(e) => Err(e),
                    Ok(p3) => if byte_at(b, p3, close) {
                        if close == 0x29 {
                            Ok((t, p3 + 1))
                        } else {
                            Ok((Tree::Optional(Box::new(t)), p3 + 1))
                        }
                    } else if close == 0x29 {
                        Err(missing(b, p3, "closing parenthesis"))
                    } else {
                        Err(missing(b, p3, "closing bracket"))
                    },
                },
            }
        } else {
            Ok((Tree::Concat(Seq::empty()), p1))
        },
    }
}

/// A `char-val` or `num-val` with its `%` at `pos`: what it is and where it ends.
pub open spec fn percent_at(b: Seq<u8>, pos: int) -> Result<(Tree, int), ParseError> {
    if pos + 1 >= b.len() {
        Err(ParseError::UnexpectedEof { span: span_of(pos + 1, pos + 1) })
    } else if b[pos + 1] == 0x73 || b[pos + 1] == 0x53 || b[pos + 1] == 0x69 || b[pos + 1] == 0x49 {
        if byte_at(b, pos + 2, 0x22) {
            let sensitive = b[pos + 1] == 0x73 || b[pos + 1] == 0x53;
            map_tree(quoted_at(b, pos + 2), |t: Seq<char>| Tree::Chars(t, sensitive))
        } else {
            Err(missing(b, pos + 2, "quoted string"))
        }
    } else if b[pos + 1] == 0x62 || b[pos + 1] == 0x42 {
        num_elem_at(b, pos + 1, 2)
    } else if b[pos + 1] == 0x64 || b[pos + 1] == 0x44 {
        num_elem_at(b, pos + 1, 10)
    } else if b[pos + 1] == 0x78 || b[pos + 1] == 0x58 {
        num_elem_at(b, pos + 1, 16)
    } else {
        Err(ParseError::Expected { what: "numeric radix or string prefix", span: span_of(pos + 1, pos + 2) })
    }
}

/// `element` at `pos`: what it is and where it ends, or the error.
pub open spec fn element_at(b: Seq<u8>, strict: bool, pos: int) -> Result<(Tree, int), ParseError>
    decreases b.len() - pos, 1int,
{
    if !(0 <= pos < b.len()) {
        Err(ParseError::UnexpectedEof { span: span_of(pos, pos) })
    } else if is_alpha(b[pos] as char) {
        let q = run_end(b, pos + 1, ByteClass::NameTail);
        Ok((Tree::Ref(text_of(b, pos, q)), q))
    } else if b[pos] == 0x28 {
        group_at(b, strict, pos, 0x29)
    } else if b[pos] == 0x5B {
        group_at(b, strict, pos, 0x5D)
    } else if b[pos] == 0x22 {
        map_tree(quoted_at(b, pos), |t: Seq<char>| Tree::Chars(t, false))
    } else if b[pos] == 0x25 {
        percent_at(b, pos)
    } else if b[pos] == 0x3C {
        map_tree(prose_at(b, pos), |t: Seq<char>| Tree::Prose(t))
    } else {
        Err(ParseError::Expected { what: "element", span: span_of(pos, pos + 1) })
    }
}

/// A repetition of `t` with bounds `min` and `max`, spelled canonically: `*1a` as `[a]`,
/// `1*1a` as `a`.
pub open spec fn repeated(min: u64, max: Option<u64>, t: Tree) -> Tree {
    if min == 0 && max == Some(1u64) {
        Tree::Optional(Box::new(t))
    } else if min == 1 && max == Some(1u64) {
        t
    } else {
        Tree::Repeat(Repeat { min, max }, Box::new(t))
    }
}

/// `repetition` at `pos`: what it is and where it ends, or the error.
pub open spec fn repetition_at(b: Seq<u8>, strict: bool, pos: int) -> Result<(Tree, int), ParseError>
    decreases b.len() - pos, 2int,
{
    let me = run_end(b, pos, ByteClass::Digits(10));
    let star = byte_at(b, me, 0x2A);
    let mxe = run_end(b, me + 1, ByteClass::Digits(10));
    let pe = if star {
        mxe
    } else {
        me
    };
    let min: u64 = if me == pos {
        0
    } else {
        digits_value(b, pos, me, 10) as u64
    };
    let max: Option<u64> = if !star {
        Some(min)
    } else if mxe == me + 1 {
        None
    } else {
        Some(digits_value(b, me + 1, mxe, 10) as u64)
    };
    if me == pos && !star {
        element_at(b, strict, pos)
    } else if me > pos && digits_value(b, pos, me, 10) > u64::MAX {
        Err(ParseError::NumberTooLarge { span: span_of(pos, me) })
    } else if star && mxe > me + 1 && digits_value(b, me + 1, mxe, 10) > u64::MAX {
        Err(ParseError::NumberTooLarge { span: span_of(me + 1, mxe) })
    } else if pos <= pe <= b.len() {
        match element_at(b, strict, pe) {
            Err(e) => Err(e),
            Ok((t, q)) => Ok((repeated(min, max, t), q)),
        }
    } else {
        Ok((Tree::Concat(Seq::empty()), pe))
    }
}

/// The items a concatenation item contributes: a nested concatenation is spliced in.
pub open spec fn flat_concat(t: Tree) -> Seq<Tree> {
    match t {
        Tree::Concat(xs) => xs,
        _ => seq![t],
    }
}

/// The branches an alternation branch contributes: a nested alternation is spliced in.
pub open spec fn flat_alt(t: Tree) -> Seq<Tree> {
    match t {
        Tree::Alt(xs) => xs,
        _ => seq![t],
    }
}

/// A concatenation of `items`, or its one item.
pub open spec fn concat_of(items: Seq<Tree>) -> Tree {
    if items.len() == 1 {
        items[0]
    } else {
        Tree::Concat(items)
    }
}

/// An alternation of `branches`, or its one branch.
pub open spec fn alt_of(branches: Seq<Tree>) -> Tree {
    if branches.len() == 1 {
        branches[0]
    } else {
        Tree::Alt(branches)
    }
}

/// The items `pre`, then those `r` gives, as one concatenation.
pub open spec fn glue_concat(pre: Seq<Tree>, r: Result<(Seq<Tree>, int), ParseError>) -> Result<(Tree, int), ParseError> {
    match r {
        Err(e) => Err(e),
        Ok((rest, end)) => Ok((concat_of(pre + rest), end)),
    }
}

/// The branches `pre`, then those `r` gives, as one alternation.
pub open spec fn glue_alt(pre: Seq<Tree>, r: Result<(Seq<Tree>, int), ParseError>) -> Result<(Tree, int), ParseError> {
    match r {
        Err(e) => Err(e),
        Ok((rest, end)) => Ok((alt_of(pre + rest), end)),
    }
}

/// `*(1*c-wsp repetition)` from `p`: the items and where the concatenation ends.
pub open spec fn concat_rest(b: Seq<u8>, strict: bool, p: int) -> Result<(Seq<Tree>, int), ParseError>
    decreases b.len() - p, 3int,
{
    match cwsp_end(b, strict, p) {
        Err(e) => Err(e),
        Ok(q) => if p < q < b.len() && starts_repetition(b[q]) {
            match repetition_at(b, strict, q) {
                Err(e) => Err(e),
                Ok((t, p2)) => if p < p2 <= b.len() {
                    match concat_rest(b, strict, p2) {
                        Err(e) => Err(e),
                        Ok((rest, end)) => Ok((flat_concat(t) + rest, end)),
                    }
                } else {
                    Ok((Seq::empty(), p2))
                },
            }
        } else {
            Ok((Seq::empty(), p))
        },
    }
}

/// `concatenation` at `pos`: what it is and where it ends, or the error.
pub open spec fn concatenation_at(b: Seq<u8>, strict: bool, pos: int) -> Result<(Tree, int), ParseError>
    decreases b.len() - pos, 4int,
{
    match repetition_at(b, strict, pos) {
        Err(e) => Err(e),
        Ok((t, p)) => if pos < p <= b.len() {
            glue_concat(flat_concat(t), concat_rest(b, strict, p))
        } else {
            Ok((t, p))
        },
    }
}

/// `*(*c-wsp "/" *c-wsp concatenation)` from `p`: the branches and where the alternation
/// ends.
pub open spec fn alt_rest(b: Seq<u8>, strict: bool, p: int) -> Result<(Seq<Tree>, int), ParseError>
    decreases b.len() - p, 5int,
{
    match cwsp_end(b, strict, p) {
        Err(e) => Err(e),
        Ok(q) => if byte_at(b, q, 0x2F) {
            match cwsp_end(b, strict, q + 1) {
                Err(e) => Err(e),
                Ok(r) => if p < r <= b.len() {
                    match concatenation_at(b, strict, r) {
                        Err(e) => Err(e),
                        Ok((t, p2)) => if p < p2 <= b.len() {
                            match alt_rest(b, strict, p2) {
                                Err(e) => Err(e),
                                Ok((rest, end)) => Ok((flat_alt(t) + rest, end)),
                            }
                        } else {
                            Ok((Seq::empty(), p2))
                        },
                    }
                } else {
                    Ok((Seq::empty(), r))
                },
            }
        } else {
            Ok((Seq::empty(), p))
        },
    }
}

/// `alternation` at `pos`: what it is and where it ends, or the error.
pub open spec fn alternation_at(b: Seq<u8>, strict: bool, pos: int) -> Result<(Tree, int), ParseError>
    decreases b.len() - pos, 6int,
{
    match concatenation_at(b, strict, pos) {
        Err(e) => Err(e),
        Ok((t, p)) => if pos < p <= b.len() {
            glue_alt(flat_alt(t), alt_rest(b, strict, p))
        } else {
            Ok((t, p))
        },
    }
}

/// `rule` at `pos`: the definition and where it ends, past its line ending, or the error.
pub open spec fn rule_at(b: Seq<u8>, strict: bool, pos: int) -> Result<(DefTree, int), ParseError> {
    if !(0 <= pos < b.len() && is_alpha(b[pos] as char)) {
        Err(missing(b, pos, "rule name"))
    } else {
        let p1 = run_end(b, pos + 1, ByteClass::NameTail);
        match cwsp_end(b, strict, p1) {
            Err(e) => Err(e),
            Ok(p2) => if !byte_at(b, p2, 0x3D) {
                Err(missing(b, p2, "\"=\" or \"=/\""))
            } else {
                let incremental = byte_at(b, p2 + 1, 0x2F);
                let p3 = if incremental {
                    p2 + 2
                } else {
                    p2 + 1
                };
                match cwsp_end(b, strict, p3) {
                    Err(e) => Err(e),
                    Ok(p4) => match alternation_at(b, strict, p4) {
                        Err(e) => Err(e),
                        Ok((t, p5)) => match c_nl_at(b, strict, run_end(b, p5, ByteClass::Wsp)) {
                            Err(e) => Err(e),
                            Ok(Some(end)) => Ok((
                                DefTree {
                                    name: text_of(b, pos, p1),
                                    defined_as: if incremental {
                                        DefinedAs::Incremental
                                    } else {
                                        DefinedAs::Base
                                    },
                                    body: t,
                                },
                                end,
                            )),
                            Ok(None) => Err(missing(b, run_end(b, p5, ByteClass::Wsp), "end of line")),
                        },
                    },
                }
            },
        }
    }
}

/// `1*( rule / (*WSP c-nl) )` from `p` to the end of the text: the definitions, or the first
/// error.
pub open spec fn rules_from(b: Seq<u8>, strict: bool, p: int) -> Result<Seq<DefTree>, ParseError>
    decreases b.len() - p,
{
    if !(0 <= p < b.len()) {
        Ok(Seq::empty())
    } else if is_alpha(b[p] as char) {
        match rule_at(b, strict, p) {
            Err(e) => Err(e),
            Ok((d, q)) => if p < q <= b.len() {
                match rules_from(b, strict, q) {
                    Err(e) => Err(e),
                    Ok(ds) => Ok(seq![d] + ds),
                }
            } else {
                Ok(seq![d])
            },
        }
    } else {
        match c_nl_at(b, strict, run_end(b, p, ByteClass::Wsp)) {
            Err(e) => Err(e),
            Ok(Some(end)) => if p < end <= b.len() {
                rules_from(b, strict, end)
            } else {
                Ok(Seq::empty())
            },
            Ok(None) => Err(missing(b, run_end(b, p, ByteClass::Wsp), "rule or end of line")),
        }
    }
}

/// The definitions the whole text denotes, or the error that parsing it raises.
pub open spec fn rulelist_outcome(b: Seq<u8>, strict: bool) -> Result<Seq<DefTree>, ParseError> {
    if b.len() == 0 {
        Err(ParseError::UnexpectedEof { span: span_of(0, 0) })
    } else {
        rules_from(b, strict, 0)
    }
}

/// Definitions `pre`, then those `r` gives.
pub open spec fn glue_defs(pre: Seq<DefTree>, r: Result<Seq<DefTree>, ParseError>) -> Result<Seq<DefTree>, ParseError> {
    match r {
        Err(e) => Err(e),
        Ok(ds) => Ok(pre + ds),
    }
}

/// Whether a definition found by the parser is the one the specification gives, ending where
/// it says, or fails as it says.
pub open spec fn yields_def(r: Result<(Definition, usize), ParseError>, s: Result<(DefTree, int), ParseError>) -> bool {
    match r {
        Ok((d, q)) => s == Ok::<(DefTree, int), ParseError>((def_tree(d), q as int)),
        Err(e) => s == Err::<(DefTree, int), ParseError>(e),
    }
}

/// Whether the definitions found by the parser are those the specification gives, or it fails
/// as it says.
pub open spec fn yields_defs(r: Result<Vec<Definition>, ParseError>, s: Result<Seq<DefTree>, ParseError>) -> bool {
    match r {
        Ok(defs) => s == Ok::<Seq<DefTree>, ParseError>(def_trees(defs@)),
        Err(e) => s == Err::<Seq<DefTree>, ParseError>(e),
    }
}

/// Whether an element found by the parser is the one the specification gives, ending where it
/// says, or fails as it says.
pub open spec fn yields(r: Result<(Element, usize), ParseError>, s: Result<(Tree, int), ParseError>) -> bool {
    match r {
        Ok((e, q)) => s == Ok::<(Tree, int), ParseError>((tree_of(e), q as int)),
        Err(e) => s == Err::<(Tree, int), ParseError>(e),
    }
}

fn span(a: usize, b: usize) -> (s: Span)
    ensures
        s.start == a as u32,
        s.end == b as u32,
        s == span_of(a as int, b as int),
{
    Span::new(a as u32, b as u32)
}

/// Recursive-descent state: the grammar text and the line-ending rule.
struct Parser<'a> {
    bytes: &'a [u8],
    strict: bool,
}

impl<'a> Parser<'a> {
    /// Offsets are reported as `u32` spans, so the text is at most `u32::MAX` bytes long.
    #[verifier::type_invariant]
    spec fn short_enough(&self) -> bool {
        self.bytes@.len() <= u32::MAX
    }
}

/// The success facts every production guarantees: it consumed `pos..end`, within the text,
/// with no bare line ending when that is required.
pub open spec fn consumed(b: Seq<u8>, strict: bool, pos: int, end: int) -> bool {
    &&& pos <= end <= b.len()
    &&& strict ==> crlf_only(b, pos, end)
}

impl<'a> Parser<'a> {
    spec fn len(&self) -> int {
        self.bytes@.len() as int
    }

    fn is_wsp_at(&self, pos: usize) -> (r: bool)
        ensures
            r == (pos < self.bytes@.len() && is_wsp(self.bytes@[pos as int])),
    {
        proof { use_type_invariant(self); }
        pos < self.bytes.len() && (self.bytes[pos] == 0x20 || self.bytes[pos] == 0x09)
    }

    fn byte_is(&self, pos: usize, b: u8) -> (r: bool)
        ensures
            r == (pos < self.bytes@.len() && self.bytes@[pos as int] == b),
    {
        proof { use_type_invariant(self); }
        pos < self.bytes.len() && self.bytes[pos] == b
    }

    fn eof_or(&self, pos: usize, what: &'static str) -> (e: ParseError)
        ensures
            e == missing(self.bytes@, pos as int, what),
    {
        proof { use_type_invariant(self); }
        if pos >= self.bytes.len() {
            ParseError::UnexpectedEof { span: span(pos, pos) }
        } else {
            ParseError::Expected { what, span: span(pos, pos + 1) }
        }
    }

    /// A line ending at `pos`: CRLF, or, unless strict, a bare LF or CR.
    fn newline(&self, pos: usize) -> (r: Result<Option<usize>, ParseError>)
        requires
            pos <= self.bytes@.len(),
        ensures
            r matches Ok(Some(q)) ==> pos < q && consumed(self.bytes@, self.strict, pos as int, q as int),
            agrees_opt(r, newline_at(self.bytes@, self.strict, pos as int)),
    {
        proof { use_type_invariant(self); }
        if self.byte_is(pos, 0x0D) {
            if self.byte_is(pos + 1, 0x0A) {
                Ok(Some(pos + 2))
            } else if self.strict {
                Err(ParseError::ExpectedCrlf { span: span(pos, pos + 1) })
            } else {
                Ok(Some(pos + 1))
            }
        } else if self.byte_is(pos, 0x0A) {
            if self.strict {
                Err(ParseError::ExpectedCrlf { span: span(pos, pos + 1) })
            } else {
                Ok(Some(pos + 1))
            }
        } else {
            Ok(None)
        }
    }

    /// `c-nl = comment / CRLF`, with `comment = ";" *(WSP / VCHAR) CRLF`.
    fn c_nl(&self, pos: usize) -> (r: Result<Option<usize>, ParseError>)
        requires
            pos <= self.bytes@.len(),
        ensures
            r matches Ok(Some(q)) ==> pos < q && consumed(self.bytes@, self.strict, pos as int, q as int),
            agrees_opt(r, c_nl_at(self.bytes@, self.strict, pos as int)),
    {
        proof { use_type_invariant(self); }
        if self.byte_is(pos, 0x3B) {
            let mut q = pos + 1;
            while q < self.bytes.len() && (self.bytes[q] == 0x09 || (0x20 <= self.bytes[q]
                && self.bytes[q] <= 0x7E))
                invariant
                    self.bytes@.len() <= u32::MAX,
                    pos < q <= self.bytes@.len(),
                    self.bytes@[pos as int] == 0x3B,
                    forall|k: int|
                        pos < k < q ==> #[trigger] self.bytes@[k] == 0x09 || (0x20
                            <= self.bytes@[k] <= 0x7E),
                    run_end(self.bytes@, pos + 1, ByteClass::Comment) == run_end(self.bytes@, q as int, ByteClass::Comment),
                decreases self.bytes@.len() - q,
            {
                q = q + 1;
            }
            proof {
                assert(run_end(self.bytes@, q as int, ByteClass::Comment) == q);
            }
            match self.newline(q)? {
                Some(end) => {
                    proof {
                        if self.strict {
                            lemma_crlf_join(self.bytes@, pos as int, q as int, end as int);
                        }
                    }
                    Ok(Some(end))
                },
                None => Err(self.eof_or(q, "end of comment")),
            }
        } else {
            self.newline(pos)
        }
    }

    /// `*c-wsp`, taken greedily: whitespace, and line endings only where whitespace follows
    /// them, which is what makes them a continuation rather than the end of a rule.
    fn skip_cwsp(&self, pos: usize) -> (r: Result<usize, ParseError>)
        requires
            pos <= self.bytes@.len(),
        ensures
            r matches Ok(q) ==> consumed(self.bytes@, self.strict, pos as int, q as int),
            agrees_pos(r, cwsp_end(self.bytes@, self.strict, pos as int)),
    {
        proof { use_type_invariant(self); }
        reveal(cwsp_end);
        let mut p = pos;
        loop
            invariant
                self.bytes@.len() <= u32::MAX,
                consumed(self.bytes@, self.strict, pos as int, p as int),
                cwsp_end(self.bytes@, self.strict, pos as int) == cwsp_end(self.bytes@, self.strict, p as int),
            decreases self.bytes@.len() - p,
        {
            reveal(cwsp_end);
            if self.is_wsp_at(p) {
                proof {
                    if self.strict {
                        lemma_crlf_step(self.bytes@, pos as int, p as int);
                    }
                }
                p = p + 1;
            } else {
                match self.c_nl(p)? {
                    Some(q) => {
                        if self.is_wsp_at(q) {
                            proof {
                                if self.strict {
                                    lemma_crlf_join(self.bytes@, pos as int, p as int, q as int);
                                    lemma_crlf_step(self.bytes@, pos as int, q as int);
                                }
                            }
                            p = q + 1;
                        } else {
                            return Ok(p);
                        }
                    },
                    None => {
                        return Ok(p);
                    },
                }
            }
        }
    }

    /// `*WSP`.
    fn skip_wsp(&self, pos: usize) -> (q: usize)
        requires
            pos <= self.bytes@.len(),
        ensures
            consumed(self.bytes@, self.strict, pos as int, q as int),
            q == run_end(self.bytes@, pos as int, ByteClass::Wsp),
    {
        proof { use_type_invariant(self); }
        let mut p = pos;
        while self.is_wsp_at(p)
            invariant
                self.bytes@.len() <= u32::MAX,
                consumed(self.bytes@, self.strict, pos as int, p as int),
                run_end(self.bytes@, pos as int, ByteClass::Wsp) == run_end(self.bytes@, p as int, ByteClass::Wsp),
            decreases self.bytes@.len() - p,
        {
            proof {
                if self.strict {
                    lemma_crlf_step(self.bytes@, pos as int, p as int);
                }
            }
            p = p + 1;
        }
        p
    }

    /// `rulename = ALPHA *(ALPHA / DIGIT / "-")`.
    fn rulename(&self, pos: usize) -> (r: Result<(RuleName, usize), ParseError>)
        requires
            pos <= self.bytes@.len(),
        ensures
            r matches Ok((name, q)) ==> pos < q && consumed(self.bytes@, self.strict, pos as int, q as int)
                && is_rule_name(name@),
            r is Ok <==> (pos < self.bytes@.len() && is_alpha(self.bytes@[pos as int] as char)),
            r matches Ok((name, q)) ==> q == run_end(self.bytes@, pos + 1, ByteClass::NameTail) && name@
                == text_of(self.bytes@, pos as int, q as int),
            r matches Err(e) ==> e == missing(self.bytes@, pos as int, "rule name"),
    {
        proof { use_type_invariant(self); }
        if !(pos < self.bytes.len() && is_alpha_byte(self.bytes[pos])) {
            return Err(self.eof_or(pos, "rule name"));
        }
        let mut name = String::new();
        push_char(&mut name, self.bytes[pos] as char);
        let mut q = pos + 1;
        while q < self.bytes.len() && (is_alpha_byte(self.bytes[q]) || is_digit_byte(self.bytes[q])
            || self.bytes[q] == 0x2D)
            invariant
                self.bytes@.len() <= u32::MAX,
                pos < q <= self.bytes@.len(),
                name@.len() == q - pos,
                is_alpha(name@[0]),
                forall|i: int|
                    0 <= i < name@.len() ==> #[trigger] name@[i] == self.bytes@[pos + i] as char,
                forall|i: int|
                    1 <= i < name@.len() ==> is_alpha(#[trigger] name@[i]) || is_digit(name@[i])
                        || name@[i] == '-',
                consumed(self.bytes@, self.strict, pos as int, q as int),
                run_end(self.bytes@, pos + 1, ByteClass::NameTail) == run_end(self.bytes@, q as int, ByteClass::NameTail),
            decreases self.bytes@.len() - q,
        {
            proof {
                if self.strict {
                    lemma_crlf_step(self.bytes@, pos as int, q as int);
                }
            }
            push_char(&mut name, self.bytes[q] as char);
            q = q + 1;
        }
        proof {
            assert(run_end(self.bytes@, q as int, ByteClass::NameTail) == q);
            assert(name@ =~= text_of(self.bytes@, pos as int, q as int));
        }
        Ok((RuleName::from_string(name), q))
    }

    /// `1*DIGIT` in `base`, starting at `pos`: the position after the digits.
    fn digits_end(&self, pos: usize, base: u64) -> (q: usize)
        requires
            pos <= self.bytes@.len(),
            base == 2 || base == 10 || base == 16,
        ensures
            pos <= q <= self.bytes@.len(),
            forall|k: int| pos <= k < q ==> (#[trigger] digit_value(self.bytes@[k], base)) is Some,
            q < self.bytes@.len() ==> digit_value(self.bytes@[q as int], base) is None,
            consumed(self.bytes@, self.strict, pos as int, q as int),
            q == run_end(self.bytes@, pos as int, ByteClass::Digits(base)),
    {
        proof { use_type_invariant(self); }
        let mut q = pos;
        while q < self.bytes.len() && digit_of(self.bytes[q], base).is_some()
            invariant
                self.bytes@.len() <= u32::MAX,
                pos <= q <= self.bytes@.len(),
                base == 2 || base == 10 || base == 16,
                forall|k: int| pos <= k < q ==> (#[trigger] digit_value(self.bytes@[k], base)) is Some,
                consumed(self.bytes@, self.strict, pos as int, q as int),
                run_end(self.bytes@, pos as int, ByteClass::Digits(base)) == run_end(self.bytes@, q as int, ByteClass::Digits(base)),
            decreases self.bytes@.len() - q,
        {
            proof {
                if self.strict {
                    lemma_crlf_step(self.bytes@, pos as int, q as int);
                }
            }
            q = q + 1;
        }
        proof {
            assert(run_end(self.bytes@, q as int, ByteClass::Digits(base)) == q);
        }
        q
    }

    /// The value of the digits `pos..end` in `base`, or `NumberTooLarge`.
    fn number(&self, pos: usize, end: usize, base: u64) -> (r: Result<u64, ParseError>)
        requires
            pos <= end <= self.bytes@.len(),
            base == 2 || base == 10 || base == 16,
            forall|k: int| pos <= k < end ==> (#[trigger] digit_value(self.bytes@[k], base)) is Some,
        ensures
            r is Ok <==> digits_value(self.bytes@, pos as int, end as int, base) <= u64::MAX,
            r matches Ok(v) ==> v == digits_value(self.bytes@, pos as int, end as int, base),
            r matches Err(e) ==> e == (ParseError::NumberTooLarge { span: span_of(pos as int, end as int) }),
    {
        proof { use_type_invariant(self); }
        let mut value: u64 = 0;
        let mut q = pos;
        while q < end
            invariant
                self.bytes@.len() <= u32::MAX,
                pos <= q <= end <= self.bytes@.len(),
                base == 2 || base == 10 || base == 16,
                forall|k: int| pos <= k < end ==> (#[trigger] digit_value(self.bytes@[k], base)) is Some,
                value == digits_value(self.bytes@, pos as int, q as int, base),
            decreases end - q,
        {
            let d = match digit_of(self.bytes[q], base) {
                Some(d) => d,
                None => {
                    return Err(ParseError::NumberTooLarge { span: span(pos, end) });
                },
            };
            proof {
                assert(digits_value(self.bytes@, pos as int, q + 1, base) == value * (base as nat) + d);
                lemma_digits_value_grows(self.bytes@, pos as int, q + 1, end as int, base);
                lemma_digits_value_grows(self.bytes@, pos as int, q as int, q + 1, base);
                if value * (base as nat) > u64::MAX {
                    lemma_digits_value_grows(self.bytes@, pos as int, q as int, end as int, base);
                }
            }
            value = match value.checked_mul(base) {
                Some(v) => match v.checked_add(d) {
                    Some(w) => w,
                    None => {
                        return Err(ParseError::NumberTooLarge { span: span(pos, end) });
                    },
                },
                None => {
                    return Err(ParseError::NumberTooLarge { span: span(pos, end) });
                },
            };
            q = q + 1;
        }
        Ok(value)
    }

    /// `quoted-string = DQUOTE *(%x20-21 / %x23-7E) DQUOTE`, with `pos` at the opening quote.
    fn quoted_string(&self, pos: usize) -> (r: Result<(String, usize), ParseError>)
        requires
            pos < self.bytes@.len(),
            self.bytes@[pos as int] == 0x22,
        ensures
            r matches Ok((value, q)) ==> pos < q && consumed(self.bytes@, self.strict, pos as int, q as int)
                && forall|i: int| 0 <= i < value@.len() ==> is_quoted_char(#[trigger] value@[i]),
            r is Ok <==> byte_at(self.bytes@, run_end(self.bytes@, pos + 1, ByteClass::Quoted), 0x22),
            r matches Ok((value, q)) ==> q == run_end(self.bytes@, pos + 1, ByteClass::Quoted) + 1 && value@
                == text_of(self.bytes@, pos + 1, q - 1),
            r matches Err(e) ==> e == missing(
                self.bytes@,
                run_end(self.bytes@, pos + 1, ByteClass::Quoted),
                "closing quote",
            ),
    {
        proof { use_type_invariant(self); }
        let mut value = String::new();
        let mut q = pos + 1;
        while q < self.bytes.len() && ((0x20 <= self.bytes[q] && self.bytes[q] <= 0x21) || (0x23
            <= self.bytes[q] && self.bytes[q] <= 0x7E))
            invariant
                self.bytes@.len() <= u32::MAX,
                pos < q <= self.bytes@.len(),
                forall|i: int| 0 <= i < value@.len() ==> is_quoted_char(#[trigger] value@[i]),
                forall|k: int|
                    pos < k < q ==> (0x20 <= #[trigger] self.bytes@[k] <= 0x21) || (0x23
                        <= self.bytes@[k] <= 0x7E),
                self.bytes@[pos as int] == 0x22,
                run_end(self.bytes@, pos + 1, ByteClass::Quoted) == run_end(self.bytes@, q as int, ByteClass::Quoted),
                value@ == text_of(self.bytes@, pos + 1, q as int),
            decreases self.bytes@.len() - q,
        {
            push_char(&mut value, self.bytes[q] as char);
            q = q + 1;
            proof {
                assert(value@ =~= text_of(self.bytes@, pos + 1, q as int));
            }
        }
        proof {
            assert(run_end(self.bytes@, q as int, ByteClass::Quoted) == q);
        }
        if self.byte_is(q, 0x22) {
            Ok((value, q + 1))
        } else {
            Err(self.eof_or(q, "closing quote"))
        }
    }

    /// `prose-val = "<" *(%x20-3D / %x3F-7E) ">"`, with `pos` at the opening bracket.
    fn prose_val(&self, pos: usize) -> (r: Result<(Element, usize), ParseError>)
        requires
            pos < self.bytes@.len(),
            self.bytes@[pos as int] == 0x3C,
        ensures
            r matches Ok((e, q)) ==> pos < q && consumed(self.bytes@, self.strict, pos as int, q as int)
                && element_wf(e),
            r is Ok <==> byte_at(self.bytes@, run_end(self.bytes@, pos + 1, ByteClass::Prose), 0x3E),
            r matches Ok((e, q)) ==> q == run_end(self.bytes@, pos + 1, ByteClass::Prose) + 1 && (
            e matches Element::ProseVal { text, span } && text@ == text_of(self.bytes@, pos + 1, q - 1)
                && span.0 == span_of(pos as int, q as int)),
            r matches Err(e) ==> e == missing(
                self.bytes@,
                run_end(self.bytes@, pos + 1, ByteClass::Prose),
                "closing angle bracket",
            ),
    {
        proof { use_type_invariant(self); }
        let mut text = String::new();
        let mut q = pos + 1;
        while q < self.bytes.len() && ((0x20 <= self.bytes[q] && self.bytes[q] <= 0x3D) || (0x3F
            <= self.bytes[q] && self.bytes[q] <= 0x7E))
            invariant
                self.bytes@.len() <= u32::MAX,
                pos < q <= self.bytes@.len(),
                forall|i: int| 0 <= i < text@.len() ==> is_prose_char(#[trigger] text@[i]),
                forall|k: int|
                    pos < k < q ==> (0x20 <= #[trigger] self.bytes@[k] <= 0x3D) || (0x3F
                        <= self.bytes@[k] <= 0x7E),
                self.bytes@[pos as int] == 0x3C,
                run_end(self.bytes@, pos + 1, ByteClass::Prose) == run_end(self.bytes@, q as int, ByteClass::Prose),
                text@ == text_of(self.bytes@, pos + 1, q as int),
            decreases self.bytes@.len() - q,
        {
            push_char(&mut text, self.bytes[q] as char);
            q = q + 1;
            proof {
                assert(text@ =~= text_of(self.bytes@, pos + 1, q as int));
            }
        }
        proof {
            assert(run_end(self.bytes@, q as int, ByteClass::Prose) == q);
        }
        if self.byte_is(q, 0x3E) {
            Ok((Element::ProseVal { text, span: Ignored(span(pos, q + 1)) }, q + 1))
        } else {
            Err(self.eof_or(q, "closing angle bracket"))
        }
    }

    /// `num-val = "%" (bin-val / dec-val / hex-val)`, with `pos` at the radix letter.
    fn num_val(&self, start: usize, pos: usize, base: u64) -> (r: Result<(Element, usize), ParseError>)
        requires
            start < pos < self.bytes@.len(),
            consumed(self.bytes@, self.strict, start as int, pos as int + 1),
            base == 2 || base == 10 || base == 16,
        ensures
            r matches Ok((e, q)) ==> start < q && consumed(self.bytes@, self.strict, start as int, q as int)
                && element_wf(e),
            yields(r, num_elem_at(self.bytes@, pos as int, base)),
    {
        proof { use_type_invariant(self); }
        let first = pos + 1;
        let first_end = self.digits_end(first, base);
        if first_end == first {
            return Err(self.eof_or(first, "digit"));
        }
        let value = self.number(first, first_end, base)?;
        if self.byte_is(first_end, 0x2D) {
            let second = first_end + 1;
            let second_end = self.digits_end(second, base);
            if second_end == second {
                return Err(self.eof_or(second, "digit"));
            }
            let hi = self.number(second, second_end, base)?;
            proof {
                if self.strict {
                    lemma_crlf_join(self.bytes@, start as int, first as int, first_end as int);
                    lemma_crlf_step(self.bytes@, start as int, first_end as int);
                    lemma_crlf_join(self.bytes@, start as int, second as int, second_end as int);
                }
            }
            Ok((
                Element::NumVal {
                    value: NumVal::Range { lo: value, hi },
                    span: Ignored(span(start, second_end)),
                },
                second_end,
            ))
        } else if self.byte_is(first_end, 0x2E) {
            let mut values: Vec<u64> = Vec::new();
            values.push(value);
            let mut q = first_end;
            proof {
                if self.strict {
                    lemma_crlf_join(self.bytes@, start as int, first as int, first_end as int);
                }
            }
            while self.byte_is(q, 0x2E)
                invariant
                    self.bytes@.len() <= u32::MAX,
                    start < q <= self.bytes@.len(),
                    values@.len() >= 1,
                    q > first_end ==> values@.len() >= 2,
                    q == first_end || values@.len() >= 2,
                    first_end <= q,
                    base == 2 || base == 10 || base == 16,
                    consumed(self.bytes@, self.strict, start as int, q as int),
                    num_val_at(self.bytes@, pos as int, base) == glue_values(values@, dots_at(self.bytes@, q as int, base)),
                decreases self.bytes@.len() - q,
            {
                let next = q + 1;
                let next_end = self.digits_end(next, base);
                if next_end == next {
                    return Err(self.eof_or(next, "digit"));
                }
                let v = self.number(next, next_end, base)?;
                let ghost pre = values@;
                values.push(v);
                proof {
                    let d = dots_at(self.bytes@, next_end as int, base);
                    if d is Ok {
                        let (vs, end) = d->Ok_0;
                        assert(pre + (seq![v] + vs) =~= values@ + vs);
                    }
                    if self.strict {
                        lemma_crlf_step(self.bytes@, start as int, q as int);
                        lemma_crlf_join(self.bytes@, start as int, next as int, next_end as int);
                    }
                }
                q = next_end;
            }
            proof {
                assert(values@ + Seq::<u64>::empty() =~= values@);
            }
            Ok((
                Element::NumVal { value: NumVal::Concat(values), span: Ignored(span(start, q)) },
                q,
            ))
        } else {
            proof {
                if self.strict {
                    lemma_crlf_join(self.bytes@, start as int, first as int, first_end as int);
                }
            }
            Ok((
                Element::NumVal { value: NumVal::Scalar(value), span: Ignored(span(start, first_end)) },
                first_end,
            ))
        }
    }

    /// `group = "(" *c-wsp alternation *c-wsp ")"` or `option = "[" *c-wsp alternation *c-wsp
    /// "]"`, with `pos` at the opening bracket and `close` its partner. An option is wrapped in
    /// `Optional`; a group is its alternation.
    #[verifier::spinoff_prover]
    fn group(&self, pos: usize, close: u8) -> (r: Result<(Element, usize), ParseError>)
        requires
            pos < self.bytes@.len(),
            (self.bytes@[pos as int] == 0x28 && close == 0x29) || (self.bytes@[pos as int] == 0x5B
                && close == 0x5D),
        ensures
            r matches Ok((e, q)) ==> pos < q && consumed(self.bytes@, self.strict, pos as int, q as int)
                && element_wf(e),
            yields(r, group_at(self.bytes@, self.strict, pos as int, close)),
        decreases self.bytes@.len() - pos, 0nat,
    {
        proof { use_type_invariant(self); }
        let ghost b = self.bytes@;
        let ghost strict = self.strict;
        let p1 = match self.skip_cwsp(pos + 1) {
            Ok(p1) => p1,
            Err(e) => {
                assert(group_at(b, strict, pos as int, close) == Err::<(Tree, int), ParseError>(e));
                return Err(e);
            },
        };
        let (inner, p2) = match self.alternation(p1) {
            Ok(x) => x,
            Err(e) => {
                assert(group_at(b, strict, pos as int, close) == Err::<(Tree, int), ParseError>(e));
                return Err(e);
            },
        };
        let p3 = match self.skip_cwsp(p2) {
            Ok(p3) => p3,
            Err(e) => {
                assert(group_at(b, strict, pos as int, close) == Err::<(Tree, int), ParseError>(e));
                return Err(e);
            },
        };
        if !self.byte_is(p3, close) {
            let what = if close == 0x29 {
                "closing parenthesis"
            } else {
                "closing bracket"
            };
            let e = self.eof_or(p3, what);
            assert(group_at(b, strict, pos as int, close) == Err::<(Tree, int), ParseError>(e));
            return Err(e);
        }
        proof {
            if self.strict {
                lemma_crlf_step(self.bytes@, pos as int, pos as int);
                lemma_crlf_join(self.bytes@, pos as int, pos + 1, p1 as int);
                lemma_crlf_join(self.bytes@, pos as int, p1 as int, p2 as int);
                lemma_crlf_join(self.bytes@, pos as int, p2 as int, p3 as int);
                lemma_crlf_step(self.bytes@, pos as int, p3 as int);
            }
        }
        if close == 0x29 {
            Ok((inner, p3 + 1))
        } else {
            Ok((Element::Optional(Box::new(inner)), p3 + 1))
        }
    }

    /// `char-val` with a `%s` or `%i` prefix, or `num-val`, with `pos` at the `%`.
    fn percent(&self, pos: usize) -> (r: Result<(Element, usize), ParseError>)
        requires
            pos < self.bytes@.len(),
            self.bytes@[pos as int] == 0x25,
        ensures
            r matches Ok((e, q)) ==> pos < q && consumed(self.bytes@, self.strict, pos as int, q as int)
                && element_wf(e),
            yields(r, percent_at(self.bytes@, pos as int)),
    {
        proof { use_type_invariant(self); }
        if pos + 1 >= self.bytes.len() {
            return Err(ParseError::UnexpectedEof { span: span(pos + 1, pos + 1) });
        }
        let kind = self.bytes[pos + 1];
        proof {
            if self.strict && kind != 0x0D && kind != 0x0A {
                lemma_crlf_step(self.bytes@, pos as int, pos as int);
                lemma_crlf_step(self.bytes@, pos as int, pos + 1);
            }
        }
        if kind == 0x73 || kind == 0x53 || kind == 0x69 || kind == 0x49 {
            if !self.byte_is(pos + 2, 0x22) {
                return Err(self.eof_or(pos + 2, "quoted string"));
            }
            let (value, q) = self.quoted_string(pos + 2)?;
            proof {
                if self.strict {
                    lemma_crlf_join(self.bytes@, pos as int, pos + 2, q as int);
                }
            }
            Ok((Element::CharVal(CharVal { value, case_sensitive: kind == 0x73 || kind == 0x53 }), q))
        } else if kind == 0x62 || kind == 0x42 {
            self.num_val(pos, pos + 1, 2)
        } else if kind == 0x64 || kind == 0x44 {
            self.num_val(pos, pos + 1, 10)
        } else if kind == 0x78 || kind == 0x58 {
            self.num_val(pos, pos + 1, 16)
        } else {
            Err(ParseError::Expected { what: "numeric radix or string prefix", span: span(pos + 1, pos + 2) })
        }
    }

    /// `element = rulename / group / option / char-val / num-val / prose-val`.
    fn element(&self, pos: usize) -> (r: Result<(Element, usize), ParseError>)
        requires
            pos <= self.bytes@.len(),
        ensures
            r matches Ok((e, q)) ==> pos < q && consumed(self.bytes@, self.strict, pos as int, q as int)
                && element_wf(e),
            yields(r, element_at(self.bytes@, self.strict, pos as int)),
        decreases self.bytes@.len() - pos, 1nat,
    {
        proof { use_type_invariant(self); }
        if pos >= self.bytes.len() {
            return Err(ParseError::UnexpectedEof { span: span(pos, pos) });
        }
        let b = self.bytes[pos];
        if is_alpha_byte(b) {
            let (name, q) = self.rulename(pos)?;
            Ok((Element::RuleRef { name, span: Ignored(span(pos, q)) }, q))
        } else if b == 0x28 {
            self.group(pos, 0x29)
        } else if b == 0x5B {
            self.group(pos, 0x5D)
        } else if b == 0x22 {
            let (value, q) = self.quoted_string(pos)?;
            Ok((Element::CharVal(CharVal { value, case_sensitive: false }), q))
        } else if b == 0x25 {
            self.percent(pos)
        } else if b == 0x3C {
            self.prose_val(pos)
        } else {
            Err(ParseError::Expected { what: "element", span: span(pos, pos + 1) })
        }
    }

    /// `repetition = [repeat] element`, with `repeat = 1*DIGIT / (*DIGIT "*" *DIGIT)`.
    ///
    /// `*1a` becomes `[a]` and `1*1a` becomes `a`: the canonical spellings.
    fn repetition(&self, pos: usize) -> (r: Result<(Element, usize), ParseError>)
        requires
            pos <= self.bytes@.len(),
        ensures
            r matches Ok((e, q)) ==> pos < q && consumed(self.bytes@, self.strict, pos as int, q as int)
                && element_wf(e),
            yields(r, repetition_at(self.bytes@, self.strict, pos as int)),
        decreases self.bytes@.len() - pos, 2nat,
    {
        proof { use_type_invariant(self); }
        let min_end = self.digits_end(pos, 10);
        let has_star = self.byte_is(min_end, 0x2A);
        if min_end == pos && !has_star {
            return self.element(pos);
        }
        let min: u64 = if min_end == pos {
            0
        } else {
            self.number(pos, min_end, 10)?
        };
        let (max, prefix_end): (Option<u64>, usize) = if has_star {
            let max_start = min_end + 1;
            let max_end = self.digits_end(max_start, 10);
            if max_end == max_start {
                (None, max_end)
            } else {
                (Some(self.number(max_start, max_end, 10)?), max_end)
            }
        } else {
            (Some(min), min_end)
        };
        proof {
            if self.strict && has_star {
                lemma_crlf_step(self.bytes@, pos as int, min_end as int);
                lemma_crlf_join(self.bytes@, pos as int, min_end + 1, prefix_end as int);
            }
        }
        let (body, q) = self.element(prefix_end)?;
        proof {
            if self.strict {
                lemma_crlf_join(self.bytes@, pos as int, prefix_end as int, q as int);
            }
        }
        let repeat = Repeat { min, max };
        if min == 0 && max == Some(1u64) {
            Ok((Element::Optional(Box::new(body)), q))
        } else if min == 1 && max == Some(1u64) {
            Ok((body, q))
        } else {
            Ok((
                Element::Repeat { repeat, body: Box::new(body), span: Ignored(span(pos, prefix_end)) },
                q,
            ))
        }
    }

    /// `concatenation = repetition *(1*c-wsp repetition)`, flattened.
    fn concatenation(&self, pos: usize) -> (r: Result<(Element, usize), ParseError>)
        requires
            pos <= self.bytes@.len(),
        ensures
            r matches Ok((e, q)) ==> pos < q && consumed(self.bytes@, self.strict, pos as int, q as int)
                && element_wf(e),
            yields(r, concatenation_at(self.bytes@, self.strict, pos as int)),
        decreases self.bytes@.len() - pos, 3nat,
    {
        proof { use_type_invariant(self); }
        let (first, mut p) = self.repetition(pos)?;
        let mut items: Vec<Element> = Vec::new();
        push_flat_concat(&mut items, first);
        proof {
            assert(trees_of(Seq::<Element>::empty()) + flat_concat(tree_of(first)) =~= flat_concat(tree_of(first)));
        }
        loop
            invariant
                self.bytes@.len() <= u32::MAX,
                pos < p <= self.bytes@.len(),
                consumed(self.bytes@, self.strict, pos as int, p as int),
                items@.len() >= 1,
                forall|i: int|
                    0 <= i < items@.len() ==> !(#[trigger] items@[i] is Concat) && element_wf(
                        items@[i],
                    ),
                concatenation_at(self.bytes@, self.strict, pos as int) == glue_concat(trees_of(items@), concat_rest(self.bytes@, self.strict, p as int)),
            ensures
                pos < p <= self.bytes@.len(),
                consumed(self.bytes@, self.strict, pos as int, p as int),
                items@.len() >= 1,
                forall|i: int|
                    0 <= i < items@.len() ==> !(#[trigger] items@[i] is Concat) && element_wf(
                        items@[i],
                    ),
                concatenation_at(self.bytes@, self.strict, pos as int) == Ok::<(Tree, int), ParseError>((concat_of(trees_of(items@)), p as int)),
            decreases self.bytes@.len() - p,
        {
            let q = self.skip_cwsp(p)?;
            if q > p && q < self.bytes.len() && starts_repetition_byte(self.bytes[q]) {
                let (next, p2) = self.repetition(q)?;
                proof {
                    if self.strict {
                        lemma_crlf_join(self.bytes@, pos as int, p as int, q as int);
                        lemma_crlf_join(self.bytes@, pos as int, q as int, p2 as int);
                    }
                }
                let ghost pre = trees_of(items@);
                push_flat_concat(&mut items, next);
                proof {
                    let rr = concat_rest(self.bytes@, self.strict, p2 as int);
                    if rr is Ok {
                        let (rest, end) = rr->Ok_0;
                        assert(pre + (flat_concat(tree_of(next)) + rest) =~= trees_of(items@) + rest);
                    }
                }
                p = p2;
            } else {
                proof {
                    assert(trees_of(items@) + Seq::<Tree>::empty() =~= trees_of(items@));
                }
                break;
            }
        }
        proof {
            lemma_trees_of_len(items@);
        }
        if items.len() == 1 {
            let e = items.pop().unwrap();
            Ok((e, p))
        } else {
            Ok((Element::Concat(items), p))
        }
    }

    /// `alternation = concatenation *(*c-wsp "/" *c-wsp concatenation)`, flattened.
    fn alternation(&self, pos: usize) -> (r: Result<(Element, usize), ParseError>)
        requires
            pos <= self.bytes@.len(),
        ensures
            r matches Ok((e, q)) ==> pos < q && consumed(self.bytes@, self.strict, pos as int, q as int)
                && element_wf(e),
            yields(r, alternation_at(self.bytes@, self.strict, pos as int)),
        decreases self.bytes@.len() - pos, 4nat,
    {
        proof { use_type_invariant(self); }
        let (first, mut p) = self.concatenation(pos)?;
        let mut branches: Vec<Element> = Vec::new();
        push_flat_alt(&mut branches, first);
        proof {
            assert(trees_of(Seq::<Element>::empty()) + flat_alt(tree_of(first)) =~= flat_alt(tree_of(first)));
        }
        loop
            invariant
                self.bytes@.len() <= u32::MAX,
                pos < p <= self.bytes@.len(),
                consumed(self.bytes@, self.strict, pos as int, p as int),
                branches@.len() >= 1,
                forall|i: int|
                    0 <= i < branches@.len() ==> !(#[trigger] branches@[i] is Alt) && element_wf(
                        branches@[i],
                    ),
                alternation_at(self.bytes@, self.strict, pos as int) == glue_alt(trees_of(branches@), alt_rest(self.bytes@, self.strict, p as int)),
            ensures
                pos < p <= self.bytes@.len(),
                consumed(self.bytes@, self.strict, pos as int, p as int),
                branches@.len() >= 1,
                forall|i: int|
                    0 <= i < branches@.len() ==> !(#[trigger] branches@[i] is Alt) && element_wf(
                        branches@[i],
                    ),
                alternation_at(self.bytes@, self.strict, pos as int) == Ok::<(Tree, int), ParseError>((alt_of(trees_of(branches@)), p as int)),
            decreases self.bytes@.len() - p,
        {
            let q = self.skip_cwsp(p)?;
            if self.byte_is(q, 0x2F) {
                let r = self.skip_cwsp(q + 1)?;
                let (next, p2) = self.concatenation(r)?;
                proof {
                    if self.strict {
                        lemma_crlf_join(self.bytes@, pos as int, p as int, q as int);
                        lemma_crlf_step(self.bytes@, pos as int, q as int);
                        lemma_crlf_join(self.bytes@, pos as int, q + 1, r as int);
                        lemma_crlf_join(self.bytes@, pos as int, r as int, p2 as int);
                    }
                }
                let ghost pre = trees_of(branches@);
                push_flat_alt(&mut branches, next);
                proof {
                    let rr = alt_rest(self.bytes@, self.strict, p2 as int);
                    if rr is Ok {
                        let (rest, end) = rr->Ok_0;
                        assert(pre + (flat_alt(tree_of(next)) + rest) =~= trees_of(branches@) + rest);
                    }
                }
                p = p2;
            } else {
                proof {
                    assert(trees_of(branches@) + Seq::<Tree>::empty() =~= trees_of(branches@));
                }
                break;
            }
        }
        proof {
            lemma_trees_of_len(branches@);
        }
        if branches.len() == 1 {
            let e = branches.pop().unwrap();
            Ok((e, p))
        } else {
            Ok((Element::Alt(branches), p))
        }
    }

    /// `rule = rulename defined-as elements c-nl`, with `elements = alternation *WSP`.
    #[verifier::spinoff_prover]
    #[verifier::rlimit(80)]
    fn rule(&self, pos: usize) -> (r: Result<(Definition, usize), ParseError>)
        requires
            pos <= self.bytes@.len(),
        ensures
            r matches Ok((d, q)) ==> pos < q && consumed(self.bytes@, self.strict, pos as int, q as int)
                && definition_wf(d),
            yields_def(r, rule_at(self.bytes@, self.strict, pos as int)),
    {
        proof { use_type_invariant(self); }
        let ghost b = self.bytes@;
        let ghost strict = self.strict;
        let (name, p1) = match self.rulename(pos) {
            Ok(x) => x,
            Err(e) => {
                assert(rule_at(b, strict, pos as int) == Err::<(DefTree, int), ParseError>(e));
                return Err(e);
            },
        };
        let p2 = match self.skip_cwsp(p1) {
            Ok(p2) => p2,
            Err(e) => {
                assert(rule_at(b, strict, pos as int) == Err::<(DefTree, int), ParseError>(e));
                return Err(e);
            },
        };
        if !self.byte_is(p2, 0x3D) {
            let e = self.eof_or(p2, "\"=\" or \"=/\"");
            assert(rule_at(b, strict, pos as int) == Err::<(DefTree, int), ParseError>(e));
            return Err(e);
        }
        let (defined_as, p3): (DefinedAs, usize) = if self.byte_is(p2 + 1, 0x2F) {
            (DefinedAs::Incremental, p2 + 2)
        } else {
            (DefinedAs::Base, p2 + 1)
        };
        let p4 = match self.skip_cwsp(p3) {
            Ok(p4) => p4,
            Err(e) => {
                assert(rule_at(b, strict, pos as int) == Err::<(DefTree, int), ParseError>(e));
                return Err(e);
            },
        };
        let (body, p5) = match self.alternation(p4) {
            Ok(x) => x,
            Err(e) => {
                assert(rule_at(b, strict, pos as int) == Err::<(DefTree, int), ParseError>(e));
                return Err(e);
            },
        };
        let p6 = self.skip_wsp(p5);
        match self.c_nl(p6) {
            Err(e) => {
                assert(rule_at(b, strict, pos as int) == Err::<(DefTree, int), ParseError>(e));
                Err(e)
            },
            Ok(Some(end)) => {
                proof {
                    if self.strict {
                        lemma_crlf_join(self.bytes@, pos as int, p1 as int, p2 as int);
                        lemma_crlf_step(self.bytes@, pos as int, p2 as int);
                        if p3 == p2 + 2 {
                            lemma_crlf_step(self.bytes@, pos as int, p2 + 1);
                        }
                        lemma_crlf_join(self.bytes@, pos as int, p3 as int, p4 as int);
                        lemma_crlf_join(self.bytes@, pos as int, p4 as int, p5 as int);
                        lemma_crlf_join(self.bytes@, pos as int, p5 as int, p6 as int);
                        lemma_crlf_join(self.bytes@, pos as int, p6 as int, end as int);
                    }
                }
                let d = Definition { name, defined_as, body, span: Ignored(span(pos, p5)) };
                assert(rule_at(b, strict, pos as int) == Ok::<(DefTree, int), ParseError>((def_tree(d), end as int)));
                Ok((d, end))
            },
            Ok(None) => {
                let e = self.eof_or(p6, "end of line");
                assert(rule_at(b, strict, pos as int) == Err::<(DefTree, int), ParseError>(e));
                Err(e)
            },
        }
    }

    /// `rulelist = 1*( rule / (*WSP c-nl) )`.
    fn rulelist(&self) -> (r: Result<Vec<Definition>, ParseError>)
        ensures
            r matches Ok(defs) ==> (forall|i: int|
                0 <= i < defs@.len() ==> definition_wf(#[trigger] defs@[i])) && consumed(
                self.bytes@,
                self.strict,
                0,
                self.bytes@.len() as int,
            ),
            yields_defs(r, rulelist_outcome(self.bytes@, self.strict)),
    {
        proof { use_type_invariant(self); }
        let mut defs: Vec<Definition> = Vec::new();
        let mut p: usize = 0;
        if self.bytes.len() == 0 {
            return Err(ParseError::UnexpectedEof { span: span(0, 0) });
        }
        proof {
            let rr = rules_from(self.bytes@, self.strict, 0);
            if rr is Ok {
                assert(def_trees(defs@) + rr->Ok_0 =~= rr->Ok_0);
            }
        }
        while p < self.bytes.len()
            invariant
                self.bytes@.len() <= u32::MAX,
                p <= self.bytes@.len(),
                consumed(self.bytes@, self.strict, 0, p as int),
                forall|i: int| 0 <= i < defs@.len() ==> definition_wf(#[trigger] defs@[i]),
                rulelist_outcome(self.bytes@, self.strict) == glue_defs(def_trees(defs@), rules_from(self.bytes@, self.strict, p as int)),
            decreases self.bytes@.len() - p,
        {
            if is_alpha_byte(self.bytes[p]) {
                let (d, q) = self.rule(p)?;
                proof {
                    if self.strict {
                        lemma_crlf_join(self.bytes@, 0, p as int, q as int);
                    }
                }
                let ghost pre = def_trees(defs@);
                let ghost dt = def_tree(d);
                defs.push(d);
                proof {
                    assert(def_trees(defs@) =~= pre.push(dt));
                    let rr = rules_from(self.bytes@, self.strict, q as int);
                    if rr is Ok {
                        assert(pre + (seq![dt] + rr->Ok_0) =~= def_trees(defs@) + rr->Ok_0);
                    }
                }
                p = q;
            } else {
                let q = self.skip_wsp(p);
                match self.c_nl(q)? {
                    Some(end) => {
                        proof {
                            if self.strict {
                                lemma_crlf_join(self.bytes@, 0, p as int, q as int);
                                lemma_crlf_join(self.bytes@, 0, q as int, end as int);
                            }
                        }
                        p = end;
                    },
                    None => {
                        return Err(self.eof_or(q, "rule or end of line"));
                    },
                }
            }
        }
        proof {
            assert(def_trees(defs@) + Seq::<DefTree>::empty() =~= def_trees(defs@));
        }
        Ok(defs)
    }
}

fn is_alpha_byte(b: u8) -> (r: bool)
    ensures
        r == is_alpha(b as char),
{
    (0x41 <= b && b <= 0x5A) || (0x61 <= b && b <= 0x7A)
}

fn is_digit_byte(b: u8) -> (r: bool)
    ensures
        r == is_digit(b as char),
{
    0x30 <= b && b <= 0x39
}

fn starts_repetition_byte(b: u8) -> (r: bool)
    ensures
        r == starts_repetition(b),
{
    is_alpha_byte(b) || is_digit_byte(b) || b == 0x2A || b == 0x28 || b == 0x5B || b == 0x22
        || b == 0x25 || b == 0x3C
}

fn digit_of(b: u8, base: u64) -> (r: Option<u64>)
    requires
        base == 2 || base == 10 || base == 16,
    ensures
        r == digit_value(b, base),
{
    let v: u64 = if 0x30 <= b && b <= 0x39 {
        (b - 0x30) as u64
    } else if 0x41 <= b && b <= 0x46 {
        (b - 0x41 + 10) as u64
    } else if 0x61 <= b && b <= 0x66 {
        (b - 0x61 + 10) as u64
    } else {
        99
    };
    if v < base {
        Some(v)
    } else {
        None
    }
}

/// Appends a concatenation item, splicing in the items of a nested concatenation.
fn push_flat_concat(items: &mut Vec<Element>, e: Element)
    requires
        element_wf(e),
        forall|i: int|
            0 <= i < old(items)@.len() ==> !(#[trigger] old(items)@[i] is Concat) && element_wf(
                old(items)@[i],
            ),
    ensures
        final(items)@.len() >= old(items)@.len() + 1,
        forall|i: int|
            0 <= i < final(items)@.len() ==> !(#[trigger] final(items)@[i] is Concat) && element_wf(
                final(items)@[i],
            ),
        trees_of(final(items)@) == trees_of(old(items)@) + flat_concat(tree_of(e)),
{
    let ghost start = items@;
    match e {
        Element::Concat(mut nested) => {
            let ghost n = nested@;
            let mut rest: Vec<Element> = Vec::new();
            while nested.len() > 0
                invariant
                    nested@ == n.subrange(0, nested@.len() as int),
                    n.len() >= 2,
                    forall|i: int| 0 <= i < n.len() ==> !(#[trigger] n[i] is Concat) && element_wf(n[i]),
                    rest@.len() + nested@.len() == n.len(),
                    forall|j: int| 0 <= j < rest@.len() ==> #[trigger] rest@[j] == n[n.len() - 1 - j],
                    items@ == start,
                decreases nested@.len(),
            {
                let x = nested.pop().unwrap();
                rest.push(x);
            }
            while rest.len() > 0
                invariant
                    n.len() >= 2,
                    forall|i: int| 0 <= i < n.len() ==> !(#[trigger] n[i] is Concat) && element_wf(n[i]),
                    forall|i: int|
                        0 <= i < start.len() ==> !(#[trigger] start[i] is Concat) && element_wf(start[i]),
                    rest@.len() <= n.len(),
                    forall|j: int| 0 <= j < rest@.len() ==> #[trigger] rest@[j] == n[n.len() - 1 - j],
                    items@ == start + n.subrange(0, n.len() - rest@.len()),
                decreases rest@.len(),
            {
                let ghost k = n.len() - rest@.len();
                let x = rest.pop().unwrap();
                items.push(x);
                proof {
                    assert(items@ =~= start + n.subrange(0, k + 1));
                }
            }
            proof {
                assert(n.subrange(0, n.len() as int) =~= n);
                lemma_trees_of_concat(start, n);
                assert forall|i: int|
                    0 <= i < items@.len() implies !(#[trigger] items@[i] is Concat) && element_wf(items@[i]) by {
                    if i >= start.len() {
                        assert(items@[i] == n[i - start.len()]);
                    }
                }
            }
        },
        other => {
            items.push(other);
            proof {
                lemma_trees_of_push(start, other);
                assert(trees_of(start).push(tree_of(other)) =~= trees_of(start) + seq![tree_of(other)]);
            }
        },
    }
}

/// Appends an alternation branch, splicing in the branches of a nested alternation.
fn push_flat_alt(branches: &mut Vec<Element>, e: Element)
    requires
        element_wf(e),
        forall|i: int|
            0 <= i < old(branches)@.len() ==> !(#[trigger] old(branches)@[i] is Alt) && element_wf(
                old(branches)@[i],
            ),
    ensures
        final(branches)@.len() >= old(branches)@.len() + 1,
        forall|i: int|
            0 <= i < final(branches)@.len() ==> !(#[trigger] final(branches)@[i] is Alt) && element_wf(
                final(branches)@[i],
            ),
        trees_of(final(branches)@) == trees_of(old(branches)@) + flat_alt(tree_of(e)),
{
    let ghost start = branches@;
    match e {
        Element::Alt(mut nested) => {
            let ghost n = nested@;
            let mut rest: Vec<Element> = Vec::new();
            while nested.len() > 0
                invariant
                    nested@ == n.subrange(0, nested@.len() as int),
                    n.len() >= 2,
                    forall|i: int| 0 <= i < n.len() ==> !(#[trigger] n[i] is Alt) && element_wf(n[i]),
                    rest@.len() + nested@.len() == n.len(),
                    forall|j: int| 0 <= j < rest@.len() ==> #[trigger] rest@[j] == n[n.len() - 1 - j],
                    branches@ == start,
                decreases nested@.len(),
            {
                let x = nested.pop().unwrap();
                rest.push(x);
            }
            while rest.len() > 0
                invariant
                    n.len() >= 2,
                    forall|i: int| 0 <= i < n.len() ==> !(#[trigger] n[i] is Alt) && element_wf(n[i]),
                    forall|i: int|
                        0 <= i < start.len() ==> !(#[trigger] start[i] is Alt) && element_wf(start[i]),
                    rest@.len() <= n.len(),
                    forall|j: int| 0 <= j < rest@.len() ==> #[trigger] rest@[j] == n[n.len() - 1 - j],
                    branches@ == start + n.subrange(0, n.len() - rest@.len()),
                decreases rest@.len(),
            {
                let ghost k = n.len() - rest@.len();
                let x = rest.pop().unwrap();
                branches.push(x);
                proof {
                    assert(branches@ =~= start + n.subrange(0, k + 1));
                }
            }
            proof {
                assert(n.subrange(0, n.len() as int) =~= n);
                lemma_trees_of_concat(start, n);
                assert forall|i: int|
                    0 <= i < branches@.len() implies !(#[trigger] branches@[i] is Alt) && element_wf(branches@[i]) by {
                    if i >= start.len() {
                        assert(branches@[i] == n[i - start.len()]);
                    }
                }
            }
        },
        other => {
            branches.push(other);
            proof {
                lemma_trees_of_push(start, other);
                assert(trees_of(start).push(tree_of(other)) =~= trees_of(start) + seq![tree_of(other)]);
            }
        },
    }
}

/// The index of the first non-ASCII byte, if there is one.
fn first_non_ascii(b: &[u8]) -> (r: Option<usize>)
    ensures
        r matches Some(i) ==> i < b@.len() && b@[i as int] >= 0x80 && all_ascii(
            b@.subrange(0, i as int),
        ),
        r is None ==> all_ascii(b@),
{
    let mut i: usize = 0;
    while i < b.len()
        invariant
            i <= b@.len(),
            all_ascii(b@.subrange(0, i as int)),
        decreases b@.len() - i,
    {
        if b[i] >= 0x80 {
            return Some(i);
        }
        i = i + 1;
        assert(all_ascii(b@.subrange(0, i as int))) by {
            assert forall|k: int| 0 <= k < i implies b@.subrange(0, i as int)[k] < 0x80 by {
                if k < i - 1 {
                    assert(b@.subrange(0, i as int)[k] == b@.subrange(0, i - 1)[k]);
                }
            }
        }
    }
    assert(b@.subrange(0, b@.len() as int) =~= b@);
    None
}

impl Grammar {
    /// Parses a grammar with the default options: CRLF, LF and CR line endings all accepted.
    ///
    /// The core rules of RFC 5234 Appendix B are implicit and need no definition.
    pub fn parse(src: &str) -> (r: Result<Grammar, ParseError>)
        requires
            src.spec_bytes().len() <= u32::MAX,
        ensures
            (r matches Ok(g) ==> all_ascii(src.spec_bytes()) && grammar_wf(g)
                && !g.spec_parse_options().strict_crlf),
            !all_ascii(src.spec_bytes()) <==> (r matches Err(ParseError::NonAscii { .. })),
            (r matches Err(ParseError::NonAscii { span }) ==> exists|i: int|
                0 <= i < src.spec_bytes().len() && src.spec_bytes()[i] >= 0x80 && span.start == i as u32
                    && all_ascii(#[trigger] src.spec_bytes().subrange(0, i))),
            (all_ascii(src.spec_bytes()) ==> (r is Ok <==> rulelist_outcome(src.spec_bytes(), false) is Ok)),
            (r matches Ok(g) ==> rulelist_outcome(src.spec_bytes(), false) == Ok::<Seq<DefTree>, ParseError>(
                def_trees(g.spec_definitions()),
            )),
            (rulelist_outcome(src.spec_bytes(), false) matches Err(e) ==> (all_ascii(src.spec_bytes()) && !(
            e is NonAscii) ==> r == Err::<Grammar, ParseError>(e))),
    {
        Grammar::parse_with(src, ParseOptions { strict_crlf: false })
    }

    /// Parses a grammar with the given options.
    ///
    /// A non-ASCII byte anywhere is `NonAscii`, checked before anything else; under
    /// `strict_crlf` a bare CR or LF is `ExpectedCrlf`.
    pub fn parse_with(src: &str, opts: ParseOptions) -> (r: Result<Grammar, ParseError>)
        requires
            src.spec_bytes().len() <= u32::MAX,
        ensures
            (r matches Ok(g) ==> all_ascii(src.spec_bytes()) && grammar_wf(g)
                && g.spec_parse_options() == opts && (opts.strict_crlf ==> crlf_only(
                src.spec_bytes(),
                0,
                src.spec_bytes().len() as int,
            ))),
            !all_ascii(src.spec_bytes()) <==> (r matches Err(ParseError::NonAscii { .. })),
            (r matches Err(ParseError::NonAscii { span }) ==> exists|i: int|
                0 <= i < src.spec_bytes().len() && src.spec_bytes()[i] >= 0x80 && span.start == i as u32
                    && all_ascii(#[trigger] src.spec_bytes().subrange(0, i))),
            (all_ascii(src.spec_bytes()) ==> (r is Ok <==> rulelist_outcome(src.spec_bytes(), opts.strict_crlf)
                is Ok)),
            (r matches Ok(g) ==> rulelist_outcome(src.spec_bytes(), opts.strict_crlf) == Ok::<
                Seq<DefTree>,
                ParseError,
            >(def_trees(g.spec_definitions()))),
            (rulelist_outcome(src.spec_bytes(), opts.strict_crlf) matches Err(e) ==> (all_ascii(
                src.spec_bytes(),
            ) && !(e is NonAscii) ==> r == Err::<Grammar, ParseError>(e))),
    {
        let bytes = src.as_bytes();
        match first_non_ascii(bytes) {
            Some(i) => {
                assert(!all_ascii(bytes@)) by {
                    assert(bytes@[i as int] >= 0x80);
                }
                return Err(ParseError::NonAscii { span: span(i, i + 1) });
            },
            None => {},
        }
        let parser = Parser { bytes, strict: opts.strict_crlf };
        match parser.rulelist() {
            Ok(defs) => {
                let g = Grammar::new(defs, opts);
                Ok(g)
            },
            Err(e) => {
                // Every byte is ASCII by now, so the only way to report one that is not is the
                // scan above.
                match e {
                    ParseError::NonAscii { span } => Err(ParseError::Expected { what: "ASCII text", span }),
                    _ => Err(e),
                }
            },
        }
    }
}

} // verus!
