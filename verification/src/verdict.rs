//! Verdicts on inputs, one per text, and the exit code a run over many of them ends with.
//!
//! Across several inputs an error dominates a rejection: a run that failed to answer part of
//! the question has not answered it.
use vstd::prelude::*;

use crate::check::CheckedGrammar;
use crate::language::reaches;
use crate::reach::{gate_error, start_usable};
use crate::recognize::{limit_error, MatchOptions, Recognizer};

verus! {

/// The answer for one input.
pub enum Verdict {
    /// The input is in the rule's language.
    Accept,
    /// The input is not in the rule's language.
    Reject,
    /// Something stopped the question being answered: a decoding failure, or a limit.
    Error(String),
}

/// The exit code of a run whose every input was accepted.
pub const ACCEPTED: u8 = 0;

/// The exit code of a run with a rejection and no error.
pub const REJECTED: u8 = 1;

/// The exit code of a run with an error.
pub const FAILED: u8 = 2;

/// Whether input `s` is in the language of the start rule named `rule` of `g`.
pub open spec fn in_language(g: CheckedGrammar, rule: Seq<char>, s: Seq<char>, b: bool) -> bool {
    exists|i: int|
        start_usable(g, rule, i) && b == reaches(g, s, g.spec_rules()[i].body.spec_index() as int, 0, s.len() as int)
}

/// Decides `text` against the rule named `rule`, with memoization and options `o`.
pub fn decide(g: &CheckedGrammar, rule: &str, text: &str, o: MatchOptions) -> (v: Verdict)
    ensures
        v is Accept ==> in_language(*g, rule@, text@, true),
        v is Reject ==> in_language(*g, rule@, text@, false),
        v matches Verdict::Error(m) ==> exists|e: crate::error::MatchError|
            #![trigger e.message()]
            m@ == e.message() && (gate_error(*g, rule@, e) || exists|i: int, steps: u64|
                #![trigger start_usable(*g, rule@, i), limit_error(e, o, true, steps)]
                start_usable(*g, rule@, i) && limit_error(e, o, true, steps)),
{
    let mut recognizer = Recognizer::new(g, text).with_options(o);
    match recognizer.accepts(rule) {
        Ok(true) => Verdict::Accept,
        Ok(false) => Verdict::Reject,
        Err(e) => {
            let m = e.to_string();
            proof {
                let ghost steps = recognizer.spec_steps();
                assert(m@ == e.message() && (gate_error(*g, rule@, e) || exists|i: int, st: u64|
                    #![trigger start_usable(*g, rule@, i), limit_error(e, o, true, st)]
                    start_usable(*g, rule@, i) && limit_error(e, o, true, st))) by {
                    if !gate_error(*g, rule@, e) {
                        let i = choose|i: int| start_usable(*g, rule@, i) && limit_error(e, o, true, steps);
                        assert(start_usable(*g, rule@, i) && limit_error(e, o, true, steps));
                    }
                }
            }
            Verdict::Error(m)
        },
    }
}

/// Whether some verdict of `vs` is an error.
pub open spec fn any_error(vs: Seq<Verdict>) -> bool {
    exists|i: int| 0 <= i < vs.len() && #[trigger] vs[i] is Error
}

/// Whether some verdict of `vs` is a rejection.
pub open spec fn any_reject(vs: Seq<Verdict>) -> bool {
    exists|i: int| 0 <= i < vs.len() && #[trigger] vs[i] is Reject
}

/// The exit code of a run over several inputs: an error anywhere dominates a rejection, and
/// only a run whose every input was accepted succeeds.
pub fn dir_exit_code(vs: &Vec<Verdict>) -> (code: u8)
    ensures
        code == FAILED <==> any_error(vs@),
        code == REJECTED <==> !any_error(vs@) && any_reject(vs@),
        code == ACCEPTED <==> (forall|i: int| 0 <= i < vs@.len() ==> #[trigger] vs@[i] is Accept),
{
    let mut errored = false;
    let mut rejected = false;
    let mut i: usize = 0;
    while i < vs.len()
        invariant
            i <= vs@.len(),
            errored <==> any_error(vs@.subrange(0, i as int)),
            rejected <==> any_reject(vs@.subrange(0, i as int)),
        decreases vs@.len() - i,
    {
        let ghost before = vs@.subrange(0, i as int);
        let ghost after = vs@.subrange(0, i + 1);
        match &vs[i] {
            Verdict::Accept => {},
            Verdict::Reject => {
                rejected = true;
            },
            Verdict::Error(_) => {
                errored = true;
            },
        }
        proof {
            assert(after =~= before.push(vs@[i as int]));
            assert(any_error(after) <==> any_error(before) || vs@[i as int] is Error) by {
                if any_error(after) && !(vs@[i as int] is Error) {
                    let k = choose|k: int| 0 <= k < after.len() && #[trigger] after[k] is Error;
                    assert(before[k] is Error);
                }
                if vs@[i as int] is Error {
                    assert(after[i as int] is Error);
                }
            }
            assert(any_reject(after) <==> any_reject(before) || vs@[i as int] is Reject) by {
                if any_reject(after) && !(vs@[i as int] is Reject) {
                    let k = choose|k: int| 0 <= k < after.len() && #[trigger] after[k] is Reject;
                    assert(before[k] is Reject);
                }
                if vs@[i as int] is Reject {
                    assert(after[i as int] is Reject);
                }
            }
        }
        i = i + 1;
    }
    proof {
        assert(vs@.subrange(0, vs@.len() as int) =~= vs@);
        if !any_error(vs@) && !any_reject(vs@) {
            assert forall|i: int| 0 <= i < vs@.len() implies #[trigger] vs@[i] is Accept by {
                if vs@[i] is Error {
                    assert(any_error(vs@));
                }
                if vs@[i] is Reject {
                    assert(any_reject(vs@));
                }
            }
        }
        if forall|i: int| 0 <= i < vs@.len() ==> #[trigger] vs@[i] is Accept {
            assert(!any_error(vs@));
            assert(!any_reject(vs@));
        }
    }
    if errored {
        FAILED
    } else if rejected {
        REJECTED
    } else {
        ACCEPTED
    }
}

impl Verdict {
    /// The label a report prints for this verdict.
    pub fn label(&self) -> (s: String)
        ensures
            s@ == match self {
                Verdict::Accept => "ACCEPT"@,
                Verdict::Reject => "REJECT"@,
                Verdict::Error(why) => "ERROR "@ + why@,
            },
    {
        let mut s = String::new();
        match self {
            Verdict::Accept => {
                s.append("ACCEPT");
            },
            Verdict::Reject => {
                s.append("REJECT");
            },
            Verdict::Error(why) => {
                s.append("ERROR ");
                s.append(why.as_str());
            },
        }
        s
    }
}

} // verus!
