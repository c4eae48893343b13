//! The five error types, kept deliberately separate.
//!
//! * [`ParseError`]: the grammar text is not valid ABNF.
//! * [`CheckError`]: structural; the grammar cannot be used at all.
//! * [`LintWarning`]: advisory only; never fails `check`.
//! * [`MatchError`] / [`GenError`]: a *start rule* cannot be used, or a resource limit was hit.
//!
//! The last category is why a limit is never reported as a rejection: "does not match" and
//! "could not decide" are different answers.
use vstd::prelude::*;

use crate::ast::Span;

verus! {

/// The grammar text could not be parsed.
#[derive(Clone, Copy, Debug, PartialEq, Eq)]
#[non_exhaustive]
pub enum ParseError {
    /// A non-ASCII byte appeared in the grammar text. Checked before anything else.
    NonAscii {
        /// Where the offending byte is.
        span: Span,
    },
    /// A bare LF or CR appeared while `strict_crlf` was set.
    ExpectedCrlf {
        /// Where the line ending is.
        span: Span,
    },
    /// A numeric literal or repetition bound does not fit in 64 bits.
    NumberTooLarge {
        /// Where the literal is.
        span: Span,
    },
    /// Something else was required here.
    Expected {
        /// What the parser required, e.g. `"="` or `"rule name"`.
        what: &'static str,
        /// Where it was required.
        span: Span,
    },
    /// The grammar text ended in the middle of a construct.
    UnexpectedEof {
        /// The end of the input.
        span: Span,
    },
}

impl ParseError {
    /// Where in the source text the error is, as a mathematical function.
    pub open spec fn spec_span(&self) -> Span {
        match self {
            ParseError::NonAscii { span } => *span,
            ParseError::ExpectedCrlf { span } => *span,
            ParseError::NumberTooLarge { span } => *span,
            ParseError::Expected { span, .. } => *span,
            ParseError::UnexpectedEof { span } => *span,
        }
    }

    /// Where in the source text the error is.
    pub fn span(&self) -> (s: Span)
        ensures
            s == self.spec_span(),
    {
        match self {
            ParseError::NonAscii { span } => *span,
            ParseError::ExpectedCrlf { span } => *span,
            ParseError::NumberTooLarge { span } => *span,
            ParseError::Expected { span, .. } => *span,
            ParseError::UnexpectedEof { span } => *span,
        }
    }

    /// The message describing the error.
    pub open spec fn message(&self) -> Seq<char> {
        match self {
            ParseError::NonAscii { .. } => "non-ASCII byte in grammar text; ABNF comments and prose values are ASCII-only"@,
            ParseError::ExpectedCrlf { .. } => "expected CRLF line ending"@,
            ParseError::NumberTooLarge { .. } => "numeric value does not fit in 64 bits"@,
            ParseError::Expected { what, .. } => "expected "@ + what@,
            ParseError::UnexpectedEof { .. } => "unexpected end of grammar text"@,
        }
    }

    /// The message describing the error.
    pub fn to_string(&self) -> (s: String)
        ensures
            s@ == self.message(),
    {
        let mut s = String::new();
        match self {
            ParseError::NonAscii { .. } => s.append(
                "non-ASCII byte in grammar text; ABNF comments and prose values are ASCII-only",
            ),
            ParseError::ExpectedCrlf { .. } => s.append("expected CRLF line ending"),
            ParseError::NumberTooLarge { .. } => s.append("numeric value does not fit in 64 bits"),
            ParseError::Expected { what, .. } => {
                s.append("expected ");
                s.append(what);
            },
            ParseError::UnexpectedEof { .. } => s.append("unexpected end of grammar text"),
        }
        assert(s@ =~= self.message());
        s
    }
}

/// A structural problem: the grammar cannot be used at all.
#[derive(Clone, Debug, PartialEq, Eq)]
#[non_exhaustive]
pub enum CheckError {
    /// A rule was defined twice with `=`.
    DuplicateDefinition {
        /// The rule name.
        name: String,
        /// Where the second definition is.
        span: Span,
    },
    /// `name =/ ...` with no prior `name = ...`.
    IncrementalWithoutBase {
        /// The rule name.
        name: String,
        /// Whether the name is one of the implicit core rules.
        shadows_core: bool,
        /// Where the incremental definition is.
        span: Span,
    },
    /// A rule reference names no user rule and no core rule.
    UndefinedRule {
        /// The referenced name.
        name: String,
        /// Where the reference is.
        span: Span,
    },
    /// A repetition whose lower bound exceeds its upper bound.
    InvalidRepeatRange {
        /// Lower bound.
        min: u64,
        /// Upper bound.
        max: u64,
        /// Where the repetition is.
        span: Span,
    },
    /// A numeric range whose lower endpoint exceeds its upper endpoint.
    InvalidNumericRange {
        /// Lower endpoint.
        lo: u64,
        /// Upper endpoint.
        hi: u64,
        /// Where the range is.
        span: Span,
    },
    /// A cycle in the first-graph: the recognizer could not terminate on it.
    LeftRecursion {
        /// The cycle, in definition order.
        cycle: Vec<String>,
    },
}

/// The decimal digits of `n`, most significant first.
pub open spec fn decimal(n: nat) -> Seq<char>
    decreases n,
{
    if n < 10 {
        seq![(48 + n) as char]
    } else {
        decimal(n / 10).push((48 + n % 10) as char)
    }
}

/// Appends the decimal spelling of `n`.
pub fn push_decimal(s: &mut String, n: u64)
    ensures
        final(s)@ == old(s)@ + decimal(n as nat),
    decreases n,
{
    if n >= 10 {
        push_decimal(s, n / 10);
    }
    let d: u8 = (n % 10) as u8;
    crate::text::push_char(s, (48u8 + d) as char);
}

/// The uppercase hexadecimal digit for `d`, which is below sixteen.
pub open spec fn hex_digit(d: nat) -> char {
    if d < 10 {
        (48 + d) as char
    } else {
        (55 + d) as char
    }
}

/// The uppercase hexadecimal digits of `n`, most significant first, without leading zeros.
pub open spec fn hex(n: nat) -> Seq<char>
    decreases n,
{
    if n < 16 {
        seq![hex_digit(n)]
    } else {
        hex(n / 16).push(hex_digit(n % 16))
    }
}

/// Appends the uppercase hexadecimal spelling of `n`, without leading zeros.
pub fn push_hex(s: &mut String, n: u64)
    ensures
        final(s)@ == old(s)@ + hex(n as nat),
    decreases n,
{
    if n >= 16 {
        push_hex(s, n / 16);
    }
    let d: u8 = (n % 16) as u8;
    if d < 10 {
        crate::text::push_char(s, (48u8 + d) as char);
    } else {
        crate::text::push_char(s, (55u8 + d) as char);
    }
}

/// Whether `n` has an odd number of hexadecimal digits.
pub fn hex_len_is_odd(n: u64) -> (b: bool)
    ensures
        b == (hex(n as nat).len() % 2 == 1),
    decreases n,
{
    if n < 16 {
        true
    } else {
        !hex_len_is_odd(n / 16)
    }
}

/// Names joined by ` -> `.
pub open spec fn joined_names(names: Seq<String>) -> Seq<char>
    decreases names.len(),
{
    if names.len() == 0 {
        Seq::empty()
    } else if names.len() == 1 {
        names[0]@
    } else {
        joined_names(names.subrange(0, names.len() - 1)) + " -> "@ + names[names.len() - 1]@
    }
}

impl CheckError {
    /// The message describing the error.
    pub open spec fn message(&self) -> Seq<char> {
        match self {
            CheckError::DuplicateDefinition { name, .. } => "rule `"@ + name@ + "` is defined more than once"@,
            CheckError::IncrementalWithoutBase { name, shadows_core, .. } => {
                let plain = "`"@ + name@ + " =/ \u{2026}` has no prior `"@ + name@ + " = \u{2026}`"@;
                if *shadows_core {
                    plain + "; `"@ + name@
                        + "` is an implicit core rule and cannot be extended in place \u{2014} write `"@
                        + name@ + " = <core definition> / \u{2026}` to shadow and extend it"@
                } else {
                    plain
                }
            },
            CheckError::UndefinedRule { name, .. } => "undefined rule `"@ + name@ + "`"@,
            CheckError::InvalidRepeatRange { min, max, .. } => "repetition lower bound "@ + decimal(
                *min as nat,
            ) + " exceeds upper bound "@ + decimal(*max as nat),
            CheckError::InvalidNumericRange { lo, hi, .. } => "numeric range starts at 0x"@ + hex(
                *lo as nat,
            ) + " and ends below it at 0x"@ + hex(*hi as nat),
            CheckError::LeftRecursion { cycle } => "left recursion: "@ + joined_names(cycle@),
        }
    }

    /// The message describing the error.
    pub fn to_string(&self) -> (s: String)
        ensures
            s@ == self.message(),
    {
        let mut s = String::new();
        match self {
            CheckError::DuplicateDefinition { name, .. } => {
                s.append("rule `");
                s.append(name.as_str());
                s.append("` is defined more than once");
            },
            CheckError::IncrementalWithoutBase { name, shadows_core, .. } => {
                s.append("`");
                s.append(name.as_str());
                s.append(" =/ \u{2026}` has no prior `");
                s.append(name.as_str());
                s.append(" = \u{2026}`");
                if *shadows_core {
                    s.append("; `");
                    s.append(name.as_str());
                    s.append(
                        "` is an implicit core rule and cannot be extended in place \u{2014} write `",
                    );
                    s.append(name.as_str());
                    s.append(" = <core definition> / \u{2026}` to shadow and extend it");
                }
            },
            CheckError::UndefinedRule { name, .. } => {
                s.append("undefined rule `");
                s.append(name.as_str());
                s.append("`");
            },
            CheckError::InvalidRepeatRange { min, max, .. } => {
                s.append("repetition lower bound ");
                push_decimal(&mut s, *min);
                s.append(" exceeds upper bound ");
                push_decimal(&mut s, *max);
            },
            CheckError::InvalidNumericRange { lo, hi, .. } => {
                s.append("numeric range starts at 0x");
                push_hex(&mut s, *lo);
                s.append(" and ends below it at 0x");
                push_hex(&mut s, *hi);
            },
            CheckError::LeftRecursion { cycle } => {
                s.append("left recursion: ");
                let ghost start = s@;
                let mut i: usize = 0;
                while i < cycle.len()
                    invariant
                        i <= cycle@.len(),
                        s@ == start + joined_names(cycle@.subrange(0, i as int)),
                    decreases cycle.len() - i,
                {
                    if i > 0 {
                        s.append(" -> ");
                    }
                    s.append(cycle[i].as_str());
                    proof {
                        let t = cycle@.subrange(0, i + 1);
                        assert(t.subrange(0, i as int) =~= cycle@.subrange(0, i as int));
                    }
                    i = i + 1;
                    assert(s@ =~= start + joined_names(cycle@.subrange(0, i as int)));
                }
                assert(cycle@.subrange(0, cycle@.len() as int) =~= cycle@);
            },
        }
        assert(s@ =~= self.message());
        s
    }
}

/// An advisory warning. Never fails `check`.
#[derive(Clone, Debug, PartialEq, Eq)]
#[non_exhaustive]
pub enum LintWarning {
    /// No rule body mentions this rule.
    UnreferencedRule {
        /// The rule name.
        name: String,
    },
    /// Not reachable from the given start rules.
    UnreachableRule {
        /// The rule name.
        name: String,
    },
    /// The rule matches nothing: its shortest match is infinite.
    UnproductiveRule {
        /// The rule name.
        name: String,
    },
    /// One branch of an alternation matches nothing, inside an otherwise productive rule.
    UnproductiveAlternative {
        /// The rule the alternation is in.
        rule: String,
        /// The branch index within the alternation.
        branch: u32,
    },
    /// An explicit definition shadows an implicit core rule. Never an error.
    ShadowsCoreRule {
        /// The rule name.
        name: String,
    },
}

/// Recognition could not be attempted, or could not be finished.
///
/// Never returned to mean "the input does not match": that is `Ok(false)`.
#[derive(Clone, Debug, PartialEq, Eq)]
#[non_exhaustive]
pub enum MatchError {
    /// The start rule can reach a prose value, which has no matching semantics.
    ProseValueReachable {
        /// The start rule.
        rule: String,
        /// The prose text reached.
        prose: String,
    },
    /// The start rule can reach a terminal that no Unicode scalar value can match.
    UnrepresentableTerminal {
        /// The start rule.
        rule: String,
        /// The terminal, in canonical spelling.
        terminal: String,
    },
    /// No such rule in the grammar or the core environment.
    UnknownRule(
        /// The requested name.
        String,
    ),
    /// The in-progress guard of the memo table fired: the rule was re-entered at the same
    /// position while being evaluated there.
    LeftRecursionDetected {
        /// The rule the guard fired on.
        rule: String,
    },
    /// `MatchOptions::max_steps` was exceeded. Never a silent reject.
    StepLimit,
    /// `MatchOptions::max_depth` was exceeded. Never a silent reject.
    DepthLimit,
}

/// Generation could not be attempted, or could not be finished.
#[derive(Clone, Debug, PartialEq, Eq)]
#[non_exhaustive]
pub enum GenError {
    /// The start rule can reach a prose value, which cannot be generated.
    ProseValueReachable {
        /// The start rule.
        rule: String,
        /// The prose text reached.
        prose: String,
    },
    /// The start rule can reach a terminal with no representable scalar value.
    UnrepresentableTerminal {
        /// The start rule.
        rule: String,
        /// The terminal, in canonical spelling.
        terminal: String,
    },
    /// No such rule in the grammar or the core environment.
    UnknownRule(
        /// The requested name.
        String,
    ),
    /// The start rule is unproductive: it has no finite expansion.
    NoFiniteExpansion {
        /// The start rule.
        rule: String,
    },
    /// `GenOptions::max_output_len` was exceeded.
    OutputLimit,
    /// `GenOptions::max_steps` was exceeded.
    StepLimit,
}

impl LintWarning {
    /// The message describing the warning.
    pub open spec fn message(&self) -> Seq<char> {
        match self {
            LintWarning::UnreferencedRule { name } => "rule `"@ + name@ + "` is never referenced"@,
            LintWarning::UnreachableRule { name } => "rule `"@ + name@
                + "` is not reachable from the given start rules"@,
            LintWarning::UnproductiveRule { name } => "rule `"@ + name@
                + "` can never match: it has no finite expansion"@,
            LintWarning::UnproductiveAlternative { rule, branch } => "branch "@ + decimal(
                *branch as nat,
            ) + " of an alternation in rule `"@ + rule@ + "` can never match"@,
            LintWarning::ShadowsCoreRule { name } => "rule `"@ + name@
                + "` shadows the core rule of the same name"@,
        }
    }

    /// The message describing the warning.
    pub fn to_string(&self) -> (s: String)
        ensures
            s@ == self.message(),
    {
        let mut s = String::new();
        match self {
            LintWarning::UnreferencedRule { name } => {
                s.append("rule `");
                s.append(name.as_str());
                s.append("` is never referenced");
            },
            LintWarning::UnreachableRule { name } => {
                s.append("rule `");
                s.append(name.as_str());
                s.append("` is not reachable from the given start rules");
            },
            LintWarning::UnproductiveRule { name } => {
                s.append("rule `");
                s.append(name.as_str());
                s.append("` can never match: it has no finite expansion");
            },
            LintWarning::UnproductiveAlternative { rule, branch } => {
                s.append("branch ");
                push_decimal(&mut s, *branch as u64);
                s.append(" of an alternation in rule `");
                s.append(rule.as_str());
                s.append("` can never match");
            },
            LintWarning::ShadowsCoreRule { name } => {
                s.append("rule `");
                s.append(name.as_str());
                s.append("` shadows the core rule of the same name");
            },
        }
        assert(s@ =~= self.message());
        s
    }
}

impl MatchError {
    /// The message describing the error.
    pub open spec fn message(&self) -> Seq<char> {
        match self {
            MatchError::ProseValueReachable { rule, prose } => "rule `"@ + rule@
                + "` can reach the prose value <"@ + prose@ + ">, which has no matching semantics"@,
            MatchError::UnrepresentableTerminal { rule, terminal } => "rule `"@ + rule@
                + "` can reach terminal "@ + terminal@ + ", which matches no Unicode scalar value"@,
            MatchError::UnknownRule(name) => "unknown rule `"@ + name@ + "`"@,
            MatchError::LeftRecursionDetected { rule } => "left recursion detected at rule `"@
                + rule@ + "`"@,
            MatchError::StepLimit => "step limit exceeded"@,
            MatchError::DepthLimit => "depth limit exceeded"@,
        }
    }

    /// The message describing the error.
    pub fn to_string(&self) -> (s: String)
        ensures
            s@ == self.message(),
    {
        let mut s = String::new();
        match self {
            MatchError::ProseValueReachable { rule, prose } => {
                s.append("rule `");
                s.append(rule.as_str());
                s.append("` can reach the prose value <");
                s.append(prose.as_str());
                s.append(">, which has no matching semantics");
            },
            MatchError::UnrepresentableTerminal { rule, terminal } => {
                s.append("rule `");
                s.append(rule.as_str());
                s.append("` can reach terminal ");
                s.append(terminal.as_str());
                s.append(", which matches no Unicode scalar value");
            },
            MatchError::UnknownRule(name) => {
                s.append("unknown rule `");
                s.append(name.as_str());
                s.append("`");
            },
            MatchError::LeftRecursionDetected { rule } => {
                s.append("left recursion detected at rule `");
                s.append(rule.as_str());
                s.append("`");
            },
            MatchError::StepLimit => s.append("step limit exceeded"),
            MatchError::DepthLimit => s.append("depth limit exceeded"),
        }
        assert(s@ =~= self.message());
        s
    }
}

impl GenError {
    /// The message describing the error.
    pub open spec fn message(&self) -> Seq<char> {
        match self {
            GenError::ProseValueReachable { rule, prose } => "rule `"@ + rule@
                + "` can reach the prose value <"@ + prose@ + ">, which cannot be generated"@,
            GenError::UnrepresentableTerminal { rule, terminal } => "rule `"@ + rule@
                + "` can reach terminal "@ + terminal@ + ", which has no representable value"@,
            GenError::UnknownRule(name) => "unknown rule `"@ + name@ + "`"@,
            GenError::NoFiniteExpansion { rule } => "rule `"@ + rule@ + "` has no finite expansion"@,
            GenError::OutputLimit => "output length limit exceeded"@,
            GenError::StepLimit => "step limit exceeded"@,
        }
    }

    /// The message describing the error.
    pub fn to_string(&self) -> (s: String)
        ensures
            s@ == self.message(),
    {
        let mut s = String::new();
        match self {
            GenError::ProseValueReachable { rule, prose } => {
                s.append("rule `");
                s.append(rule.as_str());
                s.append("` can reach the prose value <");
                s.append(prose.as_str());
                s.append(">, which cannot be generated");
            },
            GenError::UnrepresentableTerminal { rule, terminal } => {
                s.append("rule `");
                s.append(rule.as_str());
                s.append("` can reach terminal ");
                s.append(terminal.as_str());
                s.append(", which has no representable value");
            },
            GenError::UnknownRule(name) => {
                s.append("unknown rule `");
                s.append(name.as_str());
                s.append("`");
            },
            GenError::NoFiniteExpansion { rule } => {
                s.append("rule `");
                s.append(rule.as_str());
                s.append("` has no finite expansion");
            },
            GenError::OutputLimit => s.append("output length limit exceeded"),
            GenError::StepLimit => s.append("step limit exceeded"),
        }
        assert(s@ =~= self.message());
        s
    }
}

} // verus!
