# abnf_oracle

ABNF grammars (RFC 5234, with RFC 7405 case-sensitive strings) as a testing oracle: parse a
grammar, check it, decide whether an input is in the language of a rule, print grammars in a
canonical form, and generate strings a rule accepts. The library is written in Verus and
verified: each operation is stated by a contract over a mathematical model and proved.

## Layout

- `src/ast.rs` — the syntactic layer (`Grammar`, `Definition`, `Element`) and the arena types
  (`Node`, `NodeId`, `Rule`).
- `src/parse.rs` — grammar text to `Grammar`.
- `src/check.rs` — merging of `=/`, name resolution (user rules first, core rules hygienic),
  structural errors, lowering to the node arena; `CheckedGrammar` and its invariant.
- `src/core_rules.rs` — the RFC 5234 Appendix B environment.
- `src/language.rs` — what a checked grammar means: `derives`, `reaches`, `ends`.
- `src/recognize.rs` — the set-of-positions recognizer; its answers are exactly `ends`.
- `src/reach.rs` — the start-rule gate: prose values and unrepresentable terminals.
- `src/first.rs` — nullability, the first-graph and left recursion.
- `src/verdict.rs` — verdicts per input and the exit code of a run over many.
- `src/analysis.rs` — productivity ranks, the generator's termination device.
- `src/generate.rs`, `src/rng.rs` — the generator and its SplitMix64 source.
- `src/display.rs` — canonical text, stated by spec functions.
- `src/error.rs` — error types and their messages.
- `app/main.rs` — the command-line program (`check`, `match`, `gen`, `rules`).

## Main guarantees

- `Grammar::parse` yields exactly the definitions the spec function `rulelist_outcome` gives
  the text, or exactly the error it gives.
- `Recognizer::accepts` / `end_positions` answer exactly by the derivation semantics, with or
  without memoization; limits and refused start rules are errors, never "no". The step
  limit is reported only once the steps exceed it, the depth limit only where the search can
  meet a rule reference nested deeper than the budget (`too_deep`), and without memoization
  or a step limit a usable rule whose search stays within the budget is always answered.
- `Generator::generate` returns only strings the start rule derives, and what it returns is
  a function of the grammar, the options and the random state (the seed, for a fresh
  generator): the walk it makes is stated by the spec function `walked`.
- `Grammar::check` succeeds only on grammars whose definitions merge cleanly, whose
  references and bounds are valid and whose first-graph has no cycle; a grammar that is
  otherwise clean but left-recursive gets one `LeftRecursion` error per cycle; a checked
  grammar's user rules come in the order of their first `=` definitions; a checked grammar's rules print as every alternative its
  definitions gave them, in order, and a refused grammar's errors start with one merge error
  per definition that does not merge, followed only by flaws (`flaw_in`) of its definitions'
  bodies: undefined references, and repetitions or numeric ranges the wrong way up.
- `to_string` on every layer produces exactly the canonical text of its spec function.
