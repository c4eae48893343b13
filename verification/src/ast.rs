//! The grammar data model, in two layers.
//!
//! The **syntactic** layer — [`Grammar`], [`Definition`], [`Element`] — is what the parser
//! produces: the ordered list of definitions exactly as written, after local rewrites only. It
//! does not merge `=/`, resolve names, or carry node ids.
//!
//! The **semantic** layer — [`Rule`], [`Node`], [`NodeId`] — is the flat arena that `check`
//! lowers the merged rule table into. A [`NodeId`] *is* an index into that arena, so node ids
//! come out in pre-order of the merged rule table with no separate numbering pass.
//!
//! Equality at both layers ignores provenance: spans never participate (see [`Ignored`]) and
//! rule names compare ASCII-case-insensitively (see [`RuleName`]).
use vstd::prelude::*;

use core::hash::{Hash, Hasher};

use crate::text::{chars_fold_eq, fold_case, lower_char, push_char};

verus! {

/// A byte range in the grammar source text.
#[derive(Clone, Copy, Debug, Default, PartialEq, Eq, Structural, PartialOrd, Ord, Hash)]
pub struct Span {
    /// Byte offset of the first byte, inclusive.
    pub start: u32,
    /// Byte offset one past the last byte.
    pub end: u32,
}

impl Span {
    /// Creates a span covering `start..end`.
    pub fn new(start: u32, end: u32) -> (s: Self)
        ensures
            s.start == start,
            s.end == end,
    {
        Span { start, end }
    }

    /// Returns the span as a range usable for slicing the source text.
    pub fn range(self) -> (r: core::ops::Range<usize>)
        ensures
            r.start == self.start,
            r.end == self.end,
    {
        (self.start as usize)..(self.end as usize)
    }
}

/// A value that is carried but never compared: every `Ignored<T>` equals every other.
///
/// Used for spans and parse options: two grammars that differ only in where their elements
/// sit in the source text, or in how they were parsed, are the same grammar.
#[derive(Clone, Copy, Debug, Default)]
pub struct Ignored<T>(
    /// The carried value.
    pub T,
);

impl<T> PartialEq for Ignored<T> {
    fn eq(&self, _other: &Self) -> (r: bool) {
        true
    }
}

impl<T> vstd::std_specs::cmp::PartialEqSpecImpl for Ignored<T> {
    open spec fn obeys_eq_spec() -> bool {
        true
    }

    open spec fn eq_spec(&self, other: &Self) -> bool {
        true
    }
}

impl<T> Eq for Ignored<T> {}

impl<T> Hash for Ignored<T> {
    /// Hashes nothing, so that hashing agrees with equality.
    fn hash<H: Hasher>(&self, _state: &mut H) {
    }
}

/// A rule name.
///
/// Rule names are ASCII-case-insensitive (RFC 5234 2.1), so comparison and hashing fold case
/// while the spelling as written is preserved for printing.
#[derive(Debug)]
pub struct RuleName(String);

impl Clone for RuleName {
    fn clone(&self) -> (r: Self)
        ensures
            r == *self,
    {
        RuleName(self.0.clone())
    }
}

impl View for RuleName {
    type V = Seq<char>;

    closed spec fn view(&self) -> Seq<char> {
        self.0@
    }
}

impl RuleName {
    /// Creates a rule name from its spelling as written.
    pub fn new(name: &str) -> (r: Self)
        ensures
            r@ == name@,
    {
        RuleName(name.to_owned())
    }

    /// Creates a rule name from an owned spelling.
    pub fn from_string(name: String) -> (r: Self)
        ensures
            r@ == name@,
    {
        RuleName(name)
    }

    /// Returns the name as it was written in the grammar.
    pub fn as_str(&self) -> (s: &str)
        ensures
            s@ == self@,
    {
        self.0.as_str()
    }

    /// Returns the ASCII-lowercased form used to key the rule table.
    pub fn key(&self) -> (k: String)
        ensures
            k@ == fold_case(self@),
    {
        let s = self.0.as_str();
        let n = s.unicode_len();
        let mut k = String::new();
        let mut i: usize = 0;
        while i < n
            invariant
                n == self@.len(),
                s@ == self@,
                i <= n,
                k@ == fold_case(self@).subrange(0, i as int),
            decreases n - i,
        {
            let c = lower_char(s.get_char(i));
            push_char(&mut k, c);
            i = i + 1;
            assert(k@ =~= fold_case(self@).subrange(0, i as int));
        }
        assert(k@ =~= fold_case(self@));
        k
    }

    /// Whether two names are the same rule: equal once ASCII case is folded.
    pub fn same_rule(&self, other: &RuleName) -> (r: bool)
        ensures
            r == (fold_case(self@) == fold_case(other@)),
    {
        let a = self.0.as_str();
        let b = other.0.as_str();
        let n = a.unicode_len();
        if n != b.unicode_len() {
            assert(fold_case(self@).len() != fold_case(other@).len());
            return false;
        }
        let mut i: usize = 0;
        while i < n
            invariant
                n == self@.len(),
                n == other@.len(),
                a@ == self@,
                b@ == other@,
                i <= n,
                fold_case(self@).subrange(0, i as int) == fold_case(other@).subrange(0, i as int),
            decreases n - i,
        {
            if !chars_fold_eq(a.get_char(i), b.get_char(i)) {
                assert(fold_case(self@)[i as int] != fold_case(other@)[i as int]);
                return false;
            }
            i = i + 1;
            assert(fold_case(self@).subrange(0, i as int) =~= fold_case(other@).subrange(
                0,
                i as int,
            ));
        }
        assert(fold_case(self@) =~= fold_case(self@).subrange(0, n as int));
        assert(fold_case(other@) =~= fold_case(other@).subrange(0, n as int));
        true
    }
}

impl PartialEq for RuleName {
    fn eq(&self, other: &Self) -> (r: bool) {
        self.same_rule(other)
    }
}

impl vstd::std_specs::cmp::PartialEqSpecImpl for RuleName {
    open spec fn obeys_eq_spec() -> bool {
        true
    }

    open spec fn eq_spec(&self, other: &Self) -> bool {
        fold_case(self@) == fold_case(other@)
    }
}

impl Eq for RuleName {}

impl Hash for RuleName {
    /// Hashes the case-folded key, so that hashing agrees with equality.
    #[verifier::external_body]
    fn hash<H: Hasher>(&self, state: &mut H) {
        self.key().hash(state)
    }
}

/// Syntactic options for parsing. Never semantic.
///
/// Parse options are provenance: they are excluded from [`Grammar`] equality and are never
/// printed. Nothing that changes what a grammar *means* may be added here.
#[derive(Clone, Copy, Debug, Default, PartialEq, Eq, Structural)]
pub struct ParseOptions {
    /// Require CRLF line endings, rather than accepting CRLF, LF or CR.
    pub strict_crlf: bool,
}

/// Which definition operator introduced a [`Definition`].
#[derive(Clone, Copy, Debug, PartialEq, Eq, Structural, Hash)]
pub enum DefinedAs {
    /// `name = elements`.
    Base,
    /// `name =/ elements`.
    Incremental,
}

/// One `name = elements` or `name =/ elements` definition, as written.
#[derive(Debug, PartialEq, Eq)]
pub struct Definition {
    /// The rule name being defined.
    pub name: RuleName,
    /// Which operator was used.
    pub defined_as: DefinedAs,
    /// The right-hand side.
    pub body: Element,
    /// Where the definition sits in the source.
    pub span: Ignored<Span>,
}

impl Clone for Definition {
    fn clone(&self) -> (r: Self)
    {
        Definition {
            name: self.name.clone(),
            defined_as: self.defined_as,
            body: self.body.clone(),
            span: self.span,
        }
    }
}

/// Repetition bounds, inclusive on both ends.
///
/// `max` of `None` is unbounded. A sentinel is deliberately avoided: `*18446744073709551615`
/// is a legal bound and would collide with one.
#[derive(Clone, Copy, Debug, PartialEq, Eq, Structural, Hash)]
pub struct Repeat {
    /// Lower bound.
    pub min: u64,
    /// Upper bound, or `None` for unbounded.
    pub max: Option<u64>,
}

impl Repeat {
    /// `n<element>`: exactly `n` repetitions.
    pub fn exactly(n: u64) -> (r: Self)
        ensures
            r.min == n,
            r.max == Some(n),
    {
        Repeat { min: n, max: Some(n) }
    }

    /// `n*<element>`: at least `n` repetitions, unbounded above.
    pub fn at_least(n: u64) -> (r: Self)
        ensures
            r.min == n,
            r.max == None::<u64>,
    {
        Repeat { min: n, max: None }
    }

    /// `min*max<element>`.
    pub fn bounded(min: u64, max: u64) -> (r: Self)
        ensures
            r.min == min,
            r.max == Some(max),
    {
        Repeat { min, max: Some(max) }
    }

    /// Whether the upper bound is unbounded.
    pub fn is_unbounded(&self) -> (b: bool)
        ensures
            b == (self.max is None),
    {
        self.max.is_none()
    }

    /// Whether `min <= max`.
    pub open spec fn spec_is_valid(&self) -> bool {
        match self.max {
            Some(max) => self.min <= max,
            None => true,
        }
    }

    /// Whether `min <= max`. `check` rejects the inverted case with `InvalidRepeatRange`.
    pub fn is_valid(&self) -> (b: bool)
        ensures
            b == self.spec_is_valid(),
    {
        match self.max {
            Some(max) => self.min <= max,
            None => true,
        }
    }

    /// Whether the body can never match, i.e. `max == 0`.
    pub fn is_never(&self) -> (b: bool)
        ensures
            b == (self.max == Some(0u64)),
    {
        match self.max {
            Some(max) => max == 0,
            None => false,
        }
    }
}

/// A quoted string terminal: `char-val` in RFC 5234 4.
#[derive(Debug, PartialEq, Eq, Hash)]
pub struct CharVal {
    /// The characters between the quotes, as written.
    pub value: String,
    /// `true` for `%s"..."`, `false` for `"..."` and `%i"..."` (RFC 7405).
    pub case_sensitive: bool,
}

impl Clone for CharVal {
    fn clone(&self) -> (r: Self)
        ensures
            r == *self,
    {
        CharVal { value: self.value.clone(), case_sensitive: self.case_sensitive }
    }
}

/// A numeric terminal, in any of the three radices. The radix is not retained: `%d65`,
/// `%b1000001` and `%x41` all parse to the same value and print as `%x41`.
#[derive(Debug, PartialEq, Eq, Hash)]
pub enum NumVal {
    /// A single value, e.g. `%x41`.
    Scalar(u64),
    /// An inclusive range, e.g. `%x41-5A`.
    Range {
        /// Lower endpoint.
        lo: u64,
        /// Upper endpoint.
        hi: u64,
    },
    /// A concatenation, e.g. `%x41.42.43`.
    Concat(Vec<u64>),
}

impl Clone for NumVal {
    fn clone(&self) -> (r: Self)
        ensures
            match *self {
                NumVal::Concat(a) => r is Concat && r->Concat_0@ == a@,
                _ => r == *self,
            },
    {
        match self {
            NumVal::Scalar(v) => NumVal::Scalar(*v),
            NumVal::Range { lo, hi } => NumVal::Range { lo: *lo, hi: *hi },
            NumVal::Concat(values) => {
                NumVal::Concat(values.clone())
            },
        }
    }
}

/// An element of a rule body, in the syntactic layer.
#[derive(Debug, PartialEq, Eq)]
pub enum Element {
    /// `a / b / c`. Unordered.
    Alt(Vec<Element>),
    /// `a b c`.
    Concat(Vec<Element>),
    /// `2*5a`.
    Repeat {
        /// The bounds.
        repeat: Repeat,
        /// The repeated element.
        body: Box<Element>,
        /// Where the bounds sit in the source.
        span: Ignored<Span>,
    },
    /// `[a]`, kept distinct from `Repeat { 0, Some(1) }`, which canonicalization rewrites
    /// into it.
    Optional(Box<Element>),
    /// A reference to another rule.
    RuleRef {
        /// The referenced name.
        name: RuleName,
        /// Where the reference sits in the source.
        span: Ignored<Span>,
    },
    /// A quoted string terminal.
    CharVal(CharVal),
    /// A numeric terminal.
    NumVal {
        /// The value.
        value: NumVal,
        /// Where the terminal sits in the source.
        span: Ignored<Span>,
    },
    /// `<prose>`: parsed and preserved, never matched or generated.
    ProseVal {
        /// The text between the angle brackets.
        text: String,
        /// Where the prose value sits in the source.
        span: Ignored<Span>,
    },
}

impl Clone for Element {
    fn clone(&self) -> (r: Self)
        decreases self,
    {
        match self {
            Element::Alt(branches) => Element::Alt(clone_elements(branches)),
            Element::Concat(items) => Element::Concat(clone_elements(items)),
            Element::Repeat { repeat, body, span } => Element::Repeat {
                repeat: *repeat,
                body: Box::new((**body).clone()),
                span: *span,
            },
            Element::Optional(body) => Element::Optional(Box::new((**body).clone())),
            Element::RuleRef { name, span } => Element::RuleRef { name: name.clone(), span: *span },
            Element::CharVal(c) => Element::CharVal(c.clone()),
            Element::NumVal { value, span } => Element::NumVal { value: value.clone(), span: *span },
            Element::ProseVal { text, span } => Element::ProseVal { text: text.clone(), span: *span },
        }
    }
}

/// A copy of a list of elements, equal to it.
fn clone_elements(v: &Vec<Element>) -> (r: Vec<Element>)
    ensures
        r@.len() == v@.len(),
    decreases v,
{
    let mut r: Vec<Element> = Vec::new();
    let mut i: usize = 0;
    while i < v.len()
        invariant
            i <= v.len(),
            r@.len() == i,
        decreases v.len() - i,
    {
        assert(decreases_to!(v => v@[i as int]));
        r.push(v[i].clone());
        i = i + 1;
    }
    r
}

/// Whether `c` is an ASCII letter.
pub open spec fn is_alpha(c: char) -> bool {
    ('A' <= c && c <= 'Z') || ('a' <= c && c <= 'z')
}

/// Whether `c` is an ASCII digit.
pub open spec fn is_digit(c: char) -> bool {
    '0' <= c && c <= '9'
}

/// Whether `s` is a rule name as RFC 5234 spells one: `ALPHA *(ALPHA / DIGIT / "-")`.
pub open spec fn is_rule_name(s: Seq<char>) -> bool {
    &&& s.len() > 0
    &&& is_alpha(s[0])
    &&& forall|i: int| 1 <= i < s.len() ==> is_alpha(s[i]) || is_digit(s[i]) || s[i] == '-'
}

/// Whether `c` may stand between the quotes of a quoted string: `%x20-21 / %x23-7E`.
pub open spec fn is_quoted_char(c: char) -> bool {
    (' ' <= c && c <= '!') || ('#' <= c && c <= '~')
}

/// Whether `c` may stand between the angle brackets of a prose value: `%x20-3D / %x3F-7E`.
pub open spec fn is_prose_char(c: char) -> bool {
    (' ' <= c && c <= '=') || ('?' <= c && c <= '~')
}

/// Whether an element is in the canonical form the parser produces.
///
/// Groups have been dropped: no alternation is a branch of an alternation, no concatenation
/// an item of a concatenation, and neither has fewer than two parts. `*1a` has become `[a]`
/// and `1*1a` has become `a`. Names, quoted strings and prose hold only what RFC 5234 lets
/// them hold.
pub open spec fn element_wf(e: Element) -> bool
    decreases e,
{
    match e {
        Element::Alt(branches) => {
            &&& branches@.len() >= 2
            &&& forall|i: int|
                0 <= i < branches@.len() ==> !(#[trigger] branches@[i] is Alt) && element_wf(
                    branches@[i],
                )
        },
        Element::Concat(items) => {
            &&& items@.len() >= 2
            &&& forall|i: int|
                0 <= i < items@.len() ==> !(#[trigger] items@[i] is Concat) && element_wf(
                    items@[i],
                )
        },
        Element::Repeat { repeat, body, .. } => {
            &&& !(repeat.min == 0 && repeat.max == Some(1u64))
            &&& !(repeat.min == 1 && repeat.max == Some(1u64))
            &&& element_wf(*body)
        },
        Element::Optional(body) => element_wf(*body),
        Element::RuleRef { name, .. } => is_rule_name(name@),
        Element::CharVal(c) => forall|i: int| 0 <= i < c.value@.len() ==> is_quoted_char(
            #[trigger] c.value@[i],
        ),
        Element::NumVal { value, .. } => match value {
            NumVal::Concat(values) => values@.len() >= 2,
            _ => true,
        },
        Element::ProseVal { text, .. } => forall|i: int| 0 <= i < text@.len() ==> is_prose_char(
            #[trigger] text@[i],
        ),
    }
}

/// Whether a definition is in canonical form.
pub open spec fn definition_wf(d: Definition) -> bool {
    is_rule_name(d.name@) && element_wf(d.body)
}

/// A parsed grammar: the ordered definitions as written, after local rewrites only.
///
/// This layer knows nothing about rule resolution: `=/` is still separate from `=`, names
/// are unresolved, and there are no node ids. A grammar with a duplicate definition parses
/// fine and fails at `check`. Equality compares the definitions only; the parse options are
/// provenance and sit behind [`Ignored`].
#[derive(Debug, PartialEq, Eq)]
pub struct Grammar {
    defs: Vec<Definition>,
    opts: Ignored<ParseOptions>,
}

impl Clone for Grammar {
    fn clone(&self) -> (r: Self)
    {
        let mut defs: Vec<Definition> = Vec::new();
        let mut i: usize = 0;
        while i < self.defs.len()
            invariant
                i <= self.defs.len(),
            decreases self.defs.len() - i,
        {
            defs.push(self.defs[i].clone());
            i = i + 1;
        }
        Grammar { defs, opts: self.opts }
    }
}

impl Grammar {
    /// The definitions, as a sequence.
    pub closed spec fn spec_definitions(&self) -> Seq<Definition> {
        self.defs@
    }

    /// The options this grammar was parsed with.
    pub closed spec fn spec_parse_options(&self) -> ParseOptions {
        self.opts.0
    }

    /// Creates a grammar from its definitions and the options it was parsed with.
    pub fn new(defs: Vec<Definition>, opts: ParseOptions) -> (g: Self)
        ensures
            g.spec_definitions() == defs@,
            g.spec_parse_options() == opts,
    {
        Grammar { defs, opts: Ignored(opts) }
    }

    /// The definitions, in source order, `=` and `=/` alike.
    pub fn definitions(&self) -> (d: &[Definition])
        ensures
            d@ == self.spec_definitions(),
    {
        self.defs.as_slice()
    }

    /// Consumes the grammar, yielding its definitions.
    pub fn into_definitions(self) -> (d: Vec<Definition>)
        ensures
            d@ == self.spec_definitions(),
    {
        self.defs
    }

    /// The options this grammar was parsed with. Provenance only: excluded from equality and
    /// never printed.
    pub fn parse_options(&self) -> (o: &ParseOptions)
        ensures
            *o == self.spec_parse_options(),
    {
        &self.opts.0
    }
}

/// An index into a checked grammar's node arena.
///
/// Assigned by pre-order traversal of the merged rule table, so two grammars with the same
/// canonical form have identical node ids.
#[derive(Clone, Copy, Debug, PartialEq, Eq, Structural, PartialOrd, Ord, Hash)]
pub struct NodeId(pub(crate) u32);

impl NodeId {
    /// The arena index, as a mathematical integer.
    pub closed spec fn spec_index(self) -> nat {
        self.0 as nat
    }

    /// Creates a node id from an arena index.
    pub fn from_index(index: u32) -> (id: Self)
        ensures
            id.spec_index() == index,
    {
        NodeId(index)
    }

    /// Returns the arena index.
    pub fn index(self) -> (i: usize)
        ensures
            i == self.spec_index(),
    {
        self.0 as usize
    }
}

/// Identifies a rule in the merged table, distinguishing user rules from the implicit
/// core-rule environment.
///
/// The distinction is what makes core-rule resolution hygienic: a reference inside a core
/// body resolves against core rules only, so a user's `DIGIT = "x"` cannot redefine `HEXDIG`.
#[derive(Clone, Copy, Debug, PartialEq, Eq, Structural, PartialOrd, Ord, Hash)]
pub enum RuleId {
    /// A rule defined by the user grammar.
    User(u32),
    /// A rule from RFC 5234 Appendix B.
    Core(u32),
}

/// A rule in the merged table: `=/` folded into its base, body lowered into the arena.
#[derive(Debug, PartialEq, Eq)]
pub struct Rule {
    /// The rule name, spelled as it was first defined.
    pub name: RuleName,
    /// The root node of the merged body.
    pub body: NodeId,
}

impl Clone for Rule {
    fn clone(&self) -> (r: Self)
        ensures
            r == *self,
    {
        Rule { name: self.name.clone(), body: self.body }
    }
}

/// A node in the merged-grammar arena.
///
/// Mirrors [`Element`], except that children are [`NodeId`]s rather than boxes, and rule
/// references carry no resolution: resolution lives in a side table indexed by node id.
#[derive(Debug, PartialEq, Eq)]
pub enum Node {
    /// `a / b / c`.
    Alt {
        /// The branches, in source order.
        branches: Vec<NodeId>,
    },
    /// `a b c`.
    Concat {
        /// The items, in source order.
        items: Vec<NodeId>,
    },
    /// `2*5a`.
    Repeat {
        /// The bounds.
        repeat: Repeat,
        /// The repeated node.
        body: NodeId,
        /// Where the bounds sit in the source.
        span: Ignored<Span>,
    },
    /// `[a]`, modeled as `a / empty`.
    Optional {
        /// The optional node.
        body: NodeId,
    },
    /// A reference to another rule, resolved via the side table.
    RuleRef {
        /// The referenced name.
        name: RuleName,
        /// Where the reference sits in the source.
        span: Ignored<Span>,
    },
    /// A quoted string terminal.
    CharVal(CharVal),
    /// A numeric terminal.
    NumVal {
        /// The value.
        value: NumVal,
        /// Where the terminal sits in the source.
        span: Ignored<Span>,
    },
    /// `<prose>`.
    ProseVal(String),
}

impl Clone for Node {
    fn clone(&self) -> (r: Self)
    {
        match self {
            Node::Alt { branches } => {
                Node::Alt { branches: branches.clone() }
            },
            Node::Concat { items } => {
                Node::Concat { items: items.clone() }
            },
            Node::Repeat { repeat, body, span } => Node::Repeat {
                repeat: *repeat,
                body: *body,
                span: *span,
            },
            Node::Optional { body } => Node::Optional { body: *body },
            Node::RuleRef { name, span } => Node::RuleRef { name: name.clone(), span: *span },
            Node::CharVal(c) => Node::CharVal(c.clone()),
            Node::NumVal { value, span } => Node::NumVal { value: value.clone(), span: *span },
            Node::ProseVal(text) => Node::ProseVal(text.clone()),
        }
    }
}

/// The length of the shortest string a node can match.
///
/// `Finite` saturates at `u64::MAX`: nested repetitions can overflow even when every literal
/// bound fits in 64 bits, and a saturated value is still finite, hence still *productive*.
/// Every `Finite` is less than `Infinite`.
#[derive(Clone, Copy, Debug, PartialEq, Eq, Structural, PartialOrd, Ord, Hash)]
pub enum MinLen {
    /// A shortest match exists and is this long, saturating at `u64::MAX`.
    Finite(u64),
    /// The node matches nothing: it is unproductive.
    Infinite,
}

/// Saturating addition of two 64-bit values, as a mathematical function.
pub open spec fn sat_add(a: u64, b: u64) -> u64 {
    if a + b > u64::MAX {
        u64::MAX
    } else {
        (a + b) as u64
    }
}

/// Saturating multiplication of two 64-bit values, as a mathematical function.
pub open spec fn sat_mul(a: u64, b: u64) -> u64 {
    if a * b > u64::MAX {
        u64::MAX
    } else {
        (a * b) as u64
    }
}

impl MinLen {
    /// The empty match.
    pub fn zero() -> (z: MinLen)
        ensures
            z == MinLen::Finite(0),
    {
        MinLen::Finite(0)
    }

    /// Concatenation, as a mathematical function.
    pub open spec fn spec_add(self, other: MinLen) -> MinLen {
        match (self, other) {
            (MinLen::Finite(a), MinLen::Finite(b)) => MinLen::Finite(sat_add(a, b)),
            _ => MinLen::Infinite,
        }
    }

    /// Repetition, as a mathematical function.
    pub open spec fn spec_mul(self, count: u64) -> MinLen {
        if count == 0 {
            MinLen::Finite(0)
        } else {
            match self {
                MinLen::Finite(a) => MinLen::Finite(sat_mul(a, count)),
                MinLen::Infinite => MinLen::Infinite,
            }
        }
    }

    /// Alternation, as a mathematical function.
    pub open spec fn spec_min(self, other: MinLen) -> MinLen {
        match (self, other) {
            (MinLen::Finite(a), MinLen::Finite(b)) => MinLen::Finite(
                if a < b {
                    a
                } else {
                    b
                },
            ),
            (MinLen::Finite(a), MinLen::Infinite) => MinLen::Finite(a),
            (MinLen::Infinite, other) => other,
        }
    }

    /// Whether a shortest match exists, i.e. whether the node is productive.
    pub fn is_finite(self) -> (b: bool)
        ensures
            b == (self is Finite),
    {
        match self {
            MinLen::Finite(_) => true,
            MinLen::Infinite => false,
        }
    }

    /// Concatenation: saturating addition, absorbing on `Infinite`.
    pub fn saturating_add(self, other: Self) -> (r: Self)
        ensures
            r == self.spec_add(other),
    {
        match (self, other) {
            (MinLen::Finite(a), MinLen::Finite(b)) => MinLen::Finite(a.saturating_add(b)),
            _ => MinLen::Infinite,
        }
    }

    /// Repetition: `count` copies of `self`, saturating.
    ///
    /// Zero copies match the empty string whatever the body is, so `Infinite * 0` is
    /// `Finite(0)`, which is why `*bad` is productive even when `bad` is not.
    pub fn saturating_mul(self, count: u64) -> (r: Self)
        ensures
            r == self.spec_mul(count),
    {
        if count == 0 {
            return MinLen::Finite(0);
        }
        match self {
            MinLen::Finite(a) => {
                let r = a.checked_mul(count);
                match r {
                    Some(v) => MinLen::Finite(v),
                    None => MinLen::Finite(u64::MAX),
                }
            },
            MinLen::Infinite => MinLen::Infinite,
        }
    }

    /// Alternation: the shorter of two alternatives.
    pub fn min(self, other: Self) -> (r: Self)
        ensures
            r == self.spec_min(other),
    {
        match (self, other) {
            (MinLen::Finite(a), MinLen::Finite(b)) => MinLen::Finite(
                if a < b {
                    a
                } else {
                    b
                },
            ),
            (MinLen::Finite(a), MinLen::Infinite) => MinLen::Finite(a),
            (MinLen::Infinite, other) => other,
        }
    }
}

/// The choice a node's shortest derivation makes.
///
/// Recorded by `check` when a node's `min_len` is settled, so every witness points at a
/// node that was settled earlier and following witnesses terminates.
#[derive(Clone, Copy, Debug, PartialEq, Eq, Structural, Hash)]
pub enum Witness {
    /// For an alternation or optional: the branch index that attained the shortest match.
    Branch(u32),
    /// For a repetition: the count, which is always `min`.
    Count(u64),
}

/// How many nodes an element lowers to: one per element, counting every sub-element.
pub open spec fn element_size(e: Element) -> nat
    decreases e,
{
    match e {
        Element::Alt(branches) => 1 + elements_size(branches@),
        Element::Concat(items) => 1 + elements_size(items@),
        Element::Repeat { body, .. } => 1 + element_size(*body),
        Element::Optional(body) => 1 + element_size(*body),
        _ => 1,
    }
}

/// How many nodes a list of elements lowers to.
pub open spec fn elements_size(s: Seq<Element>) -> nat
    decreases s,
{
    if s.len() == 0 {
        0
    } else {
        elements_size(s.subrange(0, s.len() - 1)) + element_size(s[s.len() - 1])
    }
}

/// A numeric terminal's value, as mathematics.
pub enum NumTree {
    /// One value.
    Scalar(u64),
    /// An inclusive range.
    Range(u64, u64),
    /// A concatenation of values.
    Concat(Seq<u64>),
}

/// An element as mathematics: what it is, with spans left out.
pub enum Tree {
    /// An alternation of these branches.
    Alt(Seq<Tree>),
    /// A concatenation of these items.
    Concat(Seq<Tree>),
    /// A repetition with these bounds.
    Repeat(Repeat, Box<Tree>),
    /// An optional element.
    Optional(Box<Tree>),
    /// A reference to the rule with this name.
    Ref(Seq<char>),
    /// A quoted string, and whether it is case-sensitive.
    Chars(Seq<char>, bool),
    /// A numeric terminal.
    Num(NumTree),
    /// A prose value.
    Prose(Seq<char>),
}

/// A definition as mathematics: its name, its operator and its body.
pub struct DefTree {
    /// The name being defined.
    pub name: Seq<char>,
    /// `=` or `=/`.
    pub defined_as: DefinedAs,
    /// The right-hand side.
    pub body: Tree,
}

/// The value of a numeric terminal.
pub open spec fn num_tree(v: NumVal) -> NumTree {
    match v {
        NumVal::Scalar(x) => NumTree::Scalar(x),
        NumVal::Range { lo, hi } => NumTree::Range(lo, hi),
        NumVal::Concat(xs) => NumTree::Concat(xs@),
    }
}

/// What element `e` is.
pub open spec fn tree_of(e: Element) -> Tree
    decreases e,
{
    match e {
        Element::Alt(branches) => Tree::Alt(trees_of(branches@)),
        Element::Concat(items) => Tree::Concat(trees_of(items@)),
        Element::Repeat { repeat, body, .. } => Tree::Repeat(repeat, Box::new(tree_of(*body))),
        Element::Optional(body) => Tree::Optional(Box::new(tree_of(*body))),
        Element::RuleRef { name, .. } => Tree::Ref(name@),
        Element::CharVal(c) => Tree::Chars(c.value@, c.case_sensitive),
        Element::NumVal { value, .. } => Tree::Num(num_tree(value)),
        Element::ProseVal { text, .. } => Tree::Prose(text@),
    }
}

/// What the elements of `s` are.
pub open spec fn trees_of(s: Seq<Element>) -> Seq<Tree>
    decreases s,
{
    if s.len() == 0 {
        Seq::empty()
    } else {
        trees_of(s.subrange(0, s.len() - 1)).push(tree_of(s[s.len() - 1]))
    }
}

/// What definition `d` is.
pub open spec fn def_tree(d: Definition) -> DefTree {
    DefTree { name: d.name@, defined_as: d.defined_as, body: tree_of(d.body) }
}

/// What the definitions of `s` are.
pub open spec fn def_trees(s: Seq<Definition>) -> Seq<DefTree> {
    s.map_values(|d: Definition| def_tree(d))
}

pub proof fn lemma_trees_of_push(s: Seq<Element>, e: Element)
    ensures
        trees_of(s.push(e)) == trees_of(s).push(tree_of(e)),
{
    assert(s.push(e).subrange(0, s.len() as int) =~= s);
}

pub proof fn lemma_trees_of_concat(a: Seq<Element>, b: Seq<Element>)
    ensures
        trees_of(a + b) == trees_of(a) + trees_of(b),
    decreases b.len(),
{
    if b.len() == 0 {
        assert(a + b =~= a);
        assert(trees_of(b) =~= Seq::<Tree>::empty());
        assert(trees_of(a) + trees_of(b) =~= trees_of(a));
    } else {
        let bp = b.subrange(0, b.len() - 1);
        lemma_trees_of_concat(a, bp);
        assert((a + b).subrange(0, (a + b).len() - 1) =~= a + bp);
        assert(b.subrange(0, b.len() - 1) =~= bp);
        assert(trees_of(a) + trees_of(b) =~= (trees_of(a) + trees_of(bp)).push(tree_of(b[b.len() - 1])));
    }
}

pub proof fn lemma_trees_of_len(s: Seq<Element>)
    ensures
        trees_of(s).len() == s.len(),
        forall|i: int| 0 <= i < s.len() ==> #[trigger] trees_of(s)[i] == tree_of(s[i]),
    decreases s.len(),
{
    if s.len() > 0 {
        let sp = s.subrange(0, s.len() - 1);
        lemma_trees_of_len(sp);
        assert forall|i: int| 0 <= i < s.len() implies #[trigger] trees_of(s)[i] == tree_of(s[i]) by {
            if i < s.len() - 1 {
                assert(sp[i] == s[i]);
            }
        }
    }
}

pub proof fn lemma_elements_size_push(s: Seq<Element>, e: Element)
    ensures
        elements_size(s.push(e)) == elements_size(s) + element_size(e),
{
    assert(s.push(e).subrange(0, s.len() as int) =~= s);
}

pub proof fn lemma_elements_size_concat(a: Seq<Element>, b: Seq<Element>)
    ensures
        elements_size(a + b) == elements_size(a) + elements_size(b),
    decreases b.len(),
{
    if b.len() == 0 {
        assert(a + b =~= a);
    } else {
        let bp = b.subrange(0, b.len() - 1);
        lemma_elements_size_concat(a, bp);
        assert((a + b).subrange(0, (a + b).len() - 1) =~= a + bp);
    }
}

} // verus!
