//! ABNF grammars as a testing oracle.
//!
//! Parses ABNF grammars (RFC 5234 as amended by RFC 7405 and Errata 2968 and 3076), decides
//! whether an input string is in the language of a rule, and generates strings that are.
#![allow(unused_imports)]

pub mod analysis;
pub mod ast;
pub mod check;
pub mod core_rules;
pub mod display;
pub mod error;
pub mod first;
pub mod generate;
pub mod language;
pub mod parse;
pub mod positions;
pub mod reach;
pub mod rng;
pub mod sets;
pub mod recognize;
pub mod text;
pub mod verdict;

pub use ast::{
    CharVal, DefinedAs, Definition, Element, Grammar, Ignored, MinLen, Node, NodeId, NumVal,
    ParseOptions, Repeat, Rule, RuleId, RuleName, Span, Witness,
};
pub use check::CheckedGrammar;
pub use error::{CheckError, GenError, LintWarning, MatchError, ParseError};
pub use generate::{
    GenOptions, Generator, DEFAULT_GEN_DEPTH, DEFAULT_MAX_OUTPUT_LEN, DEFAULT_MAX_STEPS, DEFAULT_SPREAD,
};
pub use recognize::{MatchOptions, Recognizer, DEFAULT_MAX_DEPTH};
pub use verdict::Verdict;
