//! The nondeterministic finite automaton produced by Thompson construction,
//! and the specification-level notion of epsilon reachability used by the
//! determinizer's contracts.

use vstd::prelude::*;

verus! {

/// One NFA state. A `Literal` state consumes its character and moves to its
/// single successor; a `Split` state has two epsilon (input-free) successors;
/// `Match` is the terminal accepting state with no successors.
#[derive(Clone, Copy, Debug, PartialEq, Eq, Structural)]
pub enum NState {
    Literal(char, usize),
    Split(usize, usize),
    Match,
}

/// A finished NFA: an append-only arena of states addressed by stable integer
/// ids, together with the start id and the id of the designated `Match` state.
#[derive(Debug)]
pub struct Nfa {
    pub states: Vec<NState>,
    pub start: usize,
    pub accept: usize,
}

/// Every transition target lies inside the arena, the start and accept ids are
/// valid, and the accept id names a `Match` state.
pub open spec fn wf_nfa(n: &Nfa) -> bool {
    &&& n.start < n.states@.len()
    &&& n.accept < n.states@.len()
    &&& n.states@[n.accept as int] is Match
    &&& forall|i: int|
        0 <= i < n.states@.len() ==> match #[trigger] n.states@[i] {
            NState::Literal(_, o) => o < n.states@.len(),
            NState::Split(a, b) => a < n.states@.len() && b < n.states@.len(),
            NState::Match => true,
        }
}

/// There is an epsilon edge from state `i` to state `j`: `i` is a `Split`
/// state and `j` is one of its two successors.
pub open spec fn eps_edge(states: Seq<NState>, i: int, j: int) -> bool {
    &&& 0 <= i < states.len()
    &&& match states[i] {
        NState::Split(a, b) => j == a as int || j == b as int,
        _ => false,
    }
}

/// State `j` is reachable from state `i` by exactly `n` epsilon edges.
pub open spec fn eps_reach_n(states: Seq<NState>, i: int, j: int, n: nat) -> bool
    decreases n,
{
    if n == 0 {
        i == j
    } else {
        exists|k: int| eps_reach_n(states, i, k, (n - 1) as nat) && eps_edge(states, k, j)
    }
}

/// State `j` is reachable from state `i` by a chain of epsilon edges
/// (possibly of length zero).
pub open spec fn eps_reaches(states: Seq<NState>, i: int, j: int) -> bool {
    exists|n: nat| eps_reach_n(states, i, j, n)
}

/// The epsilon closure of a set of state ids: everything reachable from the
/// set by chains of epsilon edges.
pub open spec fn spec_closure(states: Seq<NState>, s: Set<int>) -> Set<int> {
    Set::new(|j: int| exists|i: int| s.contains(i) && eps_reaches(states, i, j))
}

/// Chains of epsilon edges compose.
proof fn lemma_reach_trans(states: Seq<NState>, i: int, k: int, j: int, m: nat, n: nat)
    requires
        eps_reach_n(states, i, k, m),
        eps_reach_n(states, k, j, n),
    ensures
        eps_reach_n(states, i, j, (m + n) as nat),
    decreases n,
{
    if n == 0 {
        assert(k == j);
    } else {
        let l = choose|l: int|
            eps_reach_n(states, k, l, (n - 1) as nat) && eps_edge(states, l, j);
        lemma_reach_trans(states, i, k, l, m, (n - 1) as nat);
        assert(eps_reach_n(states, i, l, (m + n - 1) as nat));
        assert(eps_reach_n(states, i, j, (m + n) as nat));
    }
}

/// Epsilon closure is idempotent: closing an already-closed set adds nothing.
pub proof fn lemma_closure_idempotent(states: Seq<NState>, s: Set<int>)
    ensures
        spec_closure(states, spec_closure(states, s)) == spec_closure(states, s),
{
    let c = spec_closure(states, s);
    let cc = spec_closure(states, c);
    assert forall|j: int| c.contains(j) implies cc.contains(j) by {
        assert(eps_reach_n(states, j, j, 0));
        assert(eps_reaches(states, j, j));
    }
    assert forall|j: int| cc.contains(j) implies c.contains(j) by {
        let k = choose|k: int| c.contains(k) && eps_reaches(states, k, j);
        let i = choose|i: int| s.contains(i) && eps_reaches(states, i, k);
        let m = choose|m: nat| eps_reach_n(states, i, k, m);
        let n = choose|n: nat| eps_reach_n(states, k, j, n);
        lemma_reach_trans(states, i, k, j, m, n);
        assert(eps_reach_n(states, i, j, (m + n) as nat));
    }
    assert(cc =~= c);
}

} // verus!
