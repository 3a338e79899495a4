//! Regular-expression compilation (infix pattern -> postfix -> NFA -> DFA)
//! together with LL(1) grammar analysis (FIRST/FOLLOW sets, parse table,
//! removal of direct left recursion).

use vstd::prelude::*;
use vstd::pervasive::unreached;

pub mod cfg;
pub mod dfa;
pub mod nfa;
pub mod nfa2dfa;
pub mod post2nfa;
pub mod regex2post;
pub mod text;

verus! {

/// The conditions under which compilation fails.
///
/// `MalformedPattern` reports structurally invalid infix input (unbalanced
/// parentheses, an operator missing an operand). `InternalInvariantViolation`
/// reports that the fragment stack of the NFA builder did not end with exactly
/// one fragment, which signals a defect in the pattern-compiler/builder
/// contract rather than a user-input problem.
#[derive(Clone, Copy, Debug, PartialEq, Eq, Structural)]
pub enum CompileError {
    MalformedPattern,
    InternalInvariantViolation,
}

/// The DFA is the full pipeline's denotation of the pattern: the pattern
/// compiles to a postfix sequence, Thompson construction denotes an NFA for
/// it, and the DFA is that NFA's subset construction.
pub open spec fn compiles_to(pattern: Seq<char>, d: dfa::DFA) -> bool {
    exists|ts: Seq<regex2post::Token>, states: Seq<nfa::NState>, start: usize, accept: usize, vs: Seq<Seq<usize>>|
        #![trigger post2nfa::thompson(ts), nfa2dfa::subset_construction_ok(states, start, accept, d, vs)]
        {
            &&& regex2post::spec_regex2post(pattern) == Some(ts)
            &&& post2nfa::thompson(ts) == Some((states, start, accept))
            &&& nfa2dfa::subset_construction_ok(states, start, accept, d, vs)
        }
}

/// Compile an infix pattern all the way to a DFA.
///
/// The result is the composition of the three stage specifications
/// (`compiles_to`). Compilation fails only with `MalformedPattern`, and
/// exactly on the patterns the pattern compiler rejects: the compiler always
/// emits a balanced postfix sequence, so the NFA builder's internal invariant
/// violation can never surface from this pipeline.
pub fn compile(pattern: &str) -> (r: Result<dfa::DFA, CompileError>)
    ensures
        match r {
            Ok(d) => compiles_to(pattern@, d),
            Err(e) => e == CompileError::MalformedPattern && regex2post::spec_regex2post(pattern@)
                is None,
        },
{
    let tokens = match regex2post::regex2post(pattern) {
        Ok(tokens) => tokens,
        Err(e) => {
            return Err(e);
        },
    };
    match post2nfa::post2nfa(&tokens) {
        Ok(n) => {
            let d = nfa2dfa::determinize(&n);
            proof {
                let vs = choose|vs: Seq<Seq<usize>>|
                    #[trigger] nfa2dfa::subset_construction_ok(
                        n.states@,
                        n.start,
                        n.accept,
                        d,
                        vs,
                    );
                assert(nfa2dfa::subset_construction_ok(n.states@, n.start, n.accept, d, vs));
                assert(post2nfa::thompson(tokens@) == Some((n.states@, n.start, n.accept)));
                assert(compiles_to(pattern@, d));
            }
            Ok(d)
        },
        Err(_) => {
            proof {
                regex2post::lemma_regex2post_valid(pattern@, tokens@);
            }
            unreached()
        },
    }
}

} // verus!
