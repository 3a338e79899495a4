//! The determinizer: NFA -> DFA by subset construction.
//!
//! Each DFA state stands for the canonical (sorted, duplicate-free) set of NFA
//! state ids reachable by the same input; transitions are computed per
//! alphabet character as the epsilon closure of the literal moves out of the
//! set. No two DFA states ever stand for the same canonical set.

use vstd::prelude::*;
use vstd::arithmetic::power2::{pow2, lemma_pow2_pos, lemma_pow2_adds, lemma_pow2_strictly_increases};
use vstd::set_lib::{set_int_range, lemma_int_range, lemma_len_subset};
use crate::nfa::{NState, Nfa, wf_nfa, eps_edge, eps_reach_n, eps_reaches, spec_closure};
use crate::dfa::DFA;

verus! {

/// The sequence holds id `i`.
pub open spec fn has_id(s: Seq<usize>, i: int) -> bool {
    exists|k: int| 0 <= k < s.len() && (#[trigger] s[k]) as int == i
}

/// The set of ids a sequence holds.
pub open spec fn seq_set(s: Seq<usize>) -> Set<int> {
    Set::new(|i: int| has_id(s, i))
}

/// The ids are strictly increasing: sorted with no duplicates.
pub open spec fn sorted_strict(s: Seq<usize>) -> bool {
    forall|p: int, q: int| 0 <= p < q < s.len() ==> s[p] < s[q]
}

/// A canonical state-set representation: strictly sorted ids below `n`.
pub open spec fn canonical(s: Seq<usize>, n: nat) -> bool {
    &&& sorted_strict(s)
    &&& forall|k: int| 0 <= k < s.len() ==> (#[trigger] s[k]) < n
}

/// State `i` is a literal on `c` whose successor is `j`.
pub open spec fn is_lit_to(states: Seq<NState>, i: int, c: char, j: int) -> bool {
    0 <= i < states.len() && match states[i] {
        NState::Literal(c2, o) => c2 == c && o as int == j,
        _ => false,
    }
}

/// `move(s, c)`: the successors of the literal states on `c` inside `s`.
pub open spec fn spec_move(states: Seq<NState>, s: Set<int>, c: char) -> Set<int> {
    Set::new(|j: int| exists|i: int| s.contains(i) && #[trigger] is_lit_to(states, i, c, j))
}

/// One subset-construction transition: the epsilon closure of `move(s, c)`.
pub open spec fn move_closure(states: Seq<NState>, s: Set<int>, c: char) -> Set<int> {
    spec_closure(states, spec_move(states, s, c))
}

/// The observed alphabet collected from state `i` on: each literal's
/// character, in order of first appearance, appended to `acc`.
pub open spec fn alpha_acc(states: Seq<NState>, i: int, acc: Seq<char>) -> Seq<char>
    decreases states.len() - i,
{
    if i < 0 || i >= states.len() {
        acc
    } else {
        let acc2 = match states[i] {
            NState::Literal(c, _) => if acc.contains(c) {
                acc
            } else {
                acc.push(c)
            },
            _ => acc,
        };
        alpha_acc(states, i + 1, acc2)
    }
}

/// The observed alphabet of an arena: each literal character once, in order
/// of first appearance.
pub open spec fn spec_alphabet(states: Seq<NState>) -> Seq<char> {
    alpha_acc(states, 0, Seq::empty())
}

/// Some state of the arena is a literal on `c`.
pub open spec fn has_lit(states: Seq<NState>, c: char) -> bool {
    exists|i: int| #[trigger] is_lit(states, i, c)
}

/// State `i` is a literal on `c`.
pub open spec fn is_lit(states: Seq<NState>, i: int, c: char) -> bool {
    0 <= i < states.len() && match states[i] {
        NState::Literal(c2, _) => c2 == c,
        _ => false,
    }
}

/// How many entries are true.
spec fn count_true(s: Seq<bool>) -> nat
    decreases s.len(),
{
    if s.len() == 0 {
        0
    } else {
        count_true(s.drop_last()) + if s.last() {
            1nat
        } else {
            0nat
        }
    }
}

/// Marking one more entry raises the count by one.
proof fn lemma_count_update(s: Seq<bool>, i: int)
    requires
        0 <= i < s.len(),
        !s[i],
    ensures
        count_true(s.update(i, true)) == count_true(s) + 1,
    decreases s.len(),
{
    if i == s.len() - 1 {
        assert(s.update(i, true).drop_last() =~= s.drop_last());
    } else {
        assert(s.update(i, true).drop_last() =~= s.drop_last().update(i, true));
        lemma_count_update(s.drop_last(), i);
    }
}

/// No more entries are true than there are entries.
proof fn lemma_count_le(s: Seq<bool>)
    ensures
        count_true(s) <= s.len(),
    decreases s.len(),
{
    if s.len() > 0 {
        lemma_count_le(s.drop_last());
    }
}

/// A state of the closure with an epsilon edge out stays in the closure.
proof fn lemma_closure_step(states: Seq<NState>, s: Set<int>, i: int, j: int)
    requires
        spec_closure(states, s).contains(i),
        eps_edge(states, i, j),
    ensures
        spec_closure(states, s).contains(j),
{
    let i0 = choose|i0: int| s.contains(i0) && eps_reaches(states, i0, i);
    let n = choose|n: nat| eps_reach_n(states, i0, i, n);
    assert(eps_reach_n(states, i0, j, n + 1));
}

/// Every state reachable by epsilon edges from a marked state is marked, once
/// the marking is closed under epsilon edges.
proof fn lemma_reach_marked(states: Seq<NState>, marks: Seq<bool>, i: int, j: int, n: nat)
    requires
        marks.len() == states.len(),
        forall|q: int|
            0 <= q < states.len() && marks[q] ==> match #[trigger] states[q] {
                NState::Split(a, b) => a < marks.len() && b < marks.len() && marks[a as int]
                    && marks[b as int],
                _ => true,
            },
        0 <= i < states.len(),
        marks[i],
        eps_reach_n(states, i, j, n),
    ensures
        0 <= j < states.len(),
        marks[j],
    decreases n,
{
    if n == 0 {
    } else {
        let k = choose|k: int|
            eps_reach_n(states, i, k, (n - 1) as nat) && eps_edge(states, k, j);
        lemma_reach_marked(states, marks, i, k, (n - 1) as nat);
    }
}

/// The epsilon closure of a set of NFA states, in canonical form: the ids
/// reachable from `seed` through chains of `Split` states, strictly sorted.
/// The result is exactly `spec_closure` of the seed's ids.
pub fn closure(nfa: &Nfa, seed: &Vec<usize>) -> (r: Vec<usize>)
    requires
        wf_nfa(nfa),
        forall|k: int| 0 <= k < seed@.len() ==> (#[trigger] seed@[k]) < nfa.states@.len(),
    ensures
        canonical(r@, nfa.states@.len()),
        forall|j: int| #[trigger] has_id(r@, j) <==> spec_closure(
            nfa.states@,
            seq_set(seed@),
        ).contains(j),
{
    let ghost states = nfa.states@;
    let ghost cset = spec_closure(states, seq_set(seed@));
    let n = nfa.states.len();
    let mut marks: Vec<bool> = Vec::new();
    let mut z: usize = 0;
    while z < n
        invariant
            marks@.len() == z <= n,
            forall|q: int| 0 <= q < z ==> !(#[trigger] marks@[q]),
            count_true(marks@) == 0,
        decreases n - z,
    {
        proof {
            assert(marks@.push(false).drop_last() =~= marks@);
        }
        marks.push(false);
        z = z + 1;
    }
    let mut count: usize = 0;
    let mut wl: Vec<usize> = Vec::new();
    let mut k: usize = 0;
    proof {
        assert(seed@.take(0) =~= Seq::<usize>::empty());
        assert forall|j: int| #[trigger] has_id(seed@.take(0), j) implies 0 <= j < n && marks@[j]
            by {
            let q = choose|q: int| 0 <= q < 0 && (seed@.take(0)[q]) as int == j;
        }
    }
    while k < seed.len()
        invariant
            k <= seed@.len(),
            marks@.len() == n == states.len(),
            nfa.states@ == states,
            wf_nfa(nfa),
            cset == spec_closure(states, seq_set(seed@)),
            forall|q: int| 0 <= q < seed@.len() ==> (#[trigger] seed@[q]) < n,
            count <= n,
            count_true(marks@) == count,
            forall|q: int| 0 <= q < wl@.len() ==> (#[trigger] wl@[q]) < n && marks@[wl@[q] as int],
            forall|i: int| 0 <= i < n && #[trigger] marks@[i] ==> cset.contains(i),
            forall|i: int| 0 <= i < n && #[trigger] marks@[i] ==> wl@.contains(i as usize),
            forall|j: int|
                #[trigger] has_id(seed@.take(k as int), j) ==> 0 <= j < n && marks@[j],
        decreases seed@.len() - k,
    {
        let s = seed[k];
        let ghost marks_entry = marks@;
        if !marks[s] {
            let ghost wl_pre = wl@;
            let ghost marks_pre = marks@;
            proof {
                lemma_count_update(marks@, s as int);
                lemma_count_le(marks@.update(s as int, true));
                assert(eps_reach_n(states, s as int, s as int, 0));
                assert(eps_reaches(states, s as int, s as int));
                assert(seq_set(seed@).contains(s as int)) by {
                    assert(seed@[k as int] as int == s as int);
                }
                assert(cset.contains(s as int)) by {
                    assert(exists|i: int|
                        seq_set(seed@).contains(i) && eps_reaches(states, i, s as int)) by {
                        assert(seq_set(seed@).contains(s as int) && eps_reaches(
                            states,
                            s as int,
                            s as int,
                        ));
                    }
                }
            }
            marks[s] = true;
            count = count + 1;
            wl.push(s);
            proof {
                assert forall|i: int| 0 <= i < n && #[trigger] marks@[i] implies wl@.contains(
                    i as usize,
                ) by {
                    if i == s as int {
                        assert(wl@[wl@.len() - 1] == s);
                    } else {
                        assert(marks_pre[i]);
                        let q = choose|q: int| 0 <= q < wl_pre.len() && wl_pre[q] == i as usize;
                        assert(wl@[q] == i as usize);
                    }
                }
            }
        }
        k = k + 1;
        proof {
            assert forall|j: int| #[trigger] has_id(seed@.take(k as int), j) implies 0 <= j < n
                && marks@[j] by {
                let q = choose|q: int|
                    0 <= q < k && (#[trigger] seed@.take(k as int)[q]) as int == j;
                if q < k - 1 {
                    assert(seed@.take(k as int - 1)[q] as int == j);
                    assert(has_id(seed@.take(k as int - 1), j));
                    assert(marks_entry[j]);
                } else {
                    assert(seed@[k as int - 1] as int == j);
                }
            }
        }
    }
    proof {
        assert(seed@.take(seed@.len() as int) =~= seed@);
    }
    while wl.len() > 0
        invariant
            marks@.len() == n == states.len(),
            nfa.states@ == states,
            wf_nfa(nfa),
            cset == spec_closure(states, seq_set(seed@)),
            count <= n,
            count_true(marks@) == count,
            forall|q: int| 0 <= q < wl@.len() ==> (#[trigger] wl@[q]) < n && marks@[wl@[q] as int],
            forall|i: int| 0 <= i < n && #[trigger] marks@[i] ==> cset.contains(i),
            forall|j: int| #[trigger] has_id(seed@, j) ==> 0 <= j < n && marks@[j],
            forall|i: int|
                0 <= i < n && #[trigger] marks@[i] ==> (wl@.contains(i as usize) || (
                match states[i] {
                    NState::Split(a, b) => marks@[a as int] && marks@[b as int],
                    _ => true,
                })),
        decreases wl@.len() + n - count,
    {
        let ghost wl_pre = wl@;
        let ghost marks_pre0 = marks@;
        let i = wl.pop().unwrap();
        proof {
            assert forall|x: usize| wl@.contains(x) implies wl_pre.contains(x) by {
                let q = choose|q: int| 0 <= q < wl@.len() && wl@[q] == x;
                assert(wl_pre[q] == x);
            }
            assert forall|x: usize| wl_pre.contains(x) && x != i implies wl@.contains(x) by {
                let q = choose|q: int| 0 <= q < wl_pre.len() && wl_pre[q] == x;
                assert(q < wl_pre.len() - 1);
                assert(wl@[q] == x);
            }
        }
        match nfa.states[i] {
            NState::Split(a, b) => {
                proof {
                    assert(states[i as int] == NState::Split(a, b));
                    assert(wl_pre[wl_pre.len() - 1] == i);
                    assert(marks@[i as int]);
                    assert(cset.contains(i as int));
                }
                let ghost wl_mid = wl@;
                let ghost marks_mid = marks@;
                if !marks[a] {
                    proof {
                        lemma_count_update(marks@, a as int);
                        lemma_count_le(marks@.update(a as int, true));
                        assert(eps_edge(states, i as int, a as int));
                        lemma_closure_step(states, seq_set(seed@), i as int, a as int);
                    }
                    marks[a] = true;
                    count = count + 1;
                    wl.push(a);
                    proof {
                        assert forall|x: usize| wl_mid.contains(x) implies wl@.contains(x) by {
                            let q = choose|q: int| 0 <= q < wl_mid.len() && wl_mid[q] == x;
                            assert(wl@[q] == x);
                        }
                        assert(wl@.contains(a)) by {
                            assert(wl@[wl@.len() - 1] == a);
                        }
                    }
                }
                let ghost wl_mid2 = wl@;
                let ghost marks_mid2 = marks@;
                if !marks[b] {
                    proof {
                        lemma_count_update(marks@, b as int);
                        lemma_count_le(marks@.update(b as int, true));
                        assert(eps_edge(states, i as int, b as int));
                        lemma_closure_step(states, seq_set(seed@), i as int, b as int);
                    }
                    marks[b] = true;
                    count = count + 1;
                    wl.push(b);
                    proof {
                        assert forall|x: usize| wl_mid2.contains(x) implies wl@.contains(x) by {
                            let q = choose|q: int| 0 <= q < wl_mid2.len() && wl_mid2[q] == x;
                            assert(wl@[q] == x);
                        }
                        assert(wl@.contains(b)) by {
                            assert(wl@[wl@.len() - 1] == b);
                        }
                    }
                }
                proof {
                    assert(marks@[a as int] && marks@[b as int]);
                    assert forall|i0: int| 0 <= i0 < n && #[trigger] marks@[i0] implies (
                    wl@.contains(i0 as usize) || (match states[i0] {
                        NState::Split(a0, b0) => marks@[a0 as int] && marks@[b0 as int],
                        _ => true,
                    })) by {
                        if i0 != i as int {
                            if marks_mid[i0] {
                                if wl_pre.contains(i0 as usize) && i0 != i as int {
                                    assert(wl_mid.contains(i0 as usize));
                                }
                            } else {
                                assert(i0 == a as int || i0 == b as int);
                            }
                        }
                    }
                }
            }
            _ => {
                proof {
                    assert forall|i0: int| 0 <= i0 < n && #[trigger] marks@[i0] implies (
                    wl@.contains(i0 as usize) || (match states[i0] {
                        NState::Split(a0, b0) => marks@[a0 as int] && marks@[b0 as int],
                        _ => true,
                    })) by {
                        if i0 == i as int {
                            assert(!(states[i0] is Split));
                        }
                    }
                }
            }
        }
        proof {
            assert forall|j: int| #[trigger] has_id(seed@, j) implies 0 <= j < n && marks@[j] by {
                assert(marks_pre0[j]);
            }
        }
    }
    let mut r: Vec<usize> = Vec::new();
    let mut z2: usize = 0;
    while z2 < n
        invariant
            z2 <= n,
            marks@.len() == n == states.len(),
            sorted_strict(r@),
            forall|q: int| 0 <= q < r@.len() ==> (#[trigger] r@[q]) < z2,
            forall|j: int| #[trigger] has_id(r@, j) <==> (0 <= j < z2 && marks@[j]),
        decreases n - z2,
    {
        if marks[z2] {
            let ghost rpre = r@;
            r.push(z2);
            proof {
                assert forall|j: int| #[trigger] has_id(r@, j) implies (0 <= j < z2 + 1
                    && marks@[j]) by {
                    let q = choose|q: int| 0 <= q < r@.len() && (r@[q]) as int == j;
                    if q < rpre.len() {
                        assert(rpre[q] as int == j);
                        assert(has_id(rpre, j));
                    }
                }
                assert forall|j: int| (0 <= j < z2 + 1 && marks@[j]) implies #[trigger] has_id(
                    r@,
                    j,
                ) by {
                    if j < z2 {
                        assert(has_id(rpre, j));
                        let q = choose|q: int| 0 <= q < rpre.len() && (rpre[q]) as int == j;
                        assert(r@[q] as int == j);
                    } else {
                        assert(r@[r@.len() - 1] as int == j);
                    }
                }
            }
        }
        z2 = z2 + 1;
    }
    proof {
        assert forall|j: int| #[trigger] has_id(r@, j) implies cset.contains(j) by {
            assert(marks@[j]);
        }
        assert forall|j: int| cset.contains(j) implies #[trigger] has_id(r@, j) by {
            let i0 = choose|i0: int| seq_set(seed@).contains(i0) && eps_reaches(states, i0, j);
            let m = choose|m: nat| eps_reach_n(states, i0, j, m);
            assert(has_id(seed@, i0));
            let q = choose|q: int| 0 <= q < seed@.len() && (seed@[q]) as int == i0;
            assert(marks@[i0]);
            lemma_reach_marked(states, marks@, i0, j, m);
        }
    }
    r
}

/// The literal moves out of a state set: every successor of a literal state
/// on `c` that the set holds, in order of appearance.
pub fn move_set(nfa: &Nfa, set: &Vec<usize>, c: char) -> (r: Vec<usize>)
    requires
        wf_nfa(nfa),
        forall|k: int| 0 <= k < set@.len() ==> (#[trigger] set@[k]) < nfa.states@.len(),
    ensures
        forall|k: int| 0 <= k < r@.len() ==> (#[trigger] r@[k]) < nfa.states@.len(),
        forall|j: int| #[trigger] has_id(r@, j) <==> spec_move(
            nfa.states@,
            seq_set(set@),
            c,
        ).contains(j),
{
    let ghost states = nfa.states@;
    let ghost mset = spec_move(states, seq_set(set@), c);
    let mut r: Vec<usize> = Vec::new();
    let mut k: usize = 0;
    while k < set.len()
        invariant
            k <= set@.len(),
            nfa.states@ == states,
            wf_nfa(nfa),
            mset == spec_move(states, seq_set(set@), c),
            forall|q: int| 0 <= q < set@.len() ==> (#[trigger] set@[q]) < states.len(),
            forall|q: int| 0 <= q < r@.len() ==> (#[trigger] r@[q]) < states.len(),
            forall|j: int| #[trigger] has_id(r@, j) ==> mset.contains(j),
            forall|j: int|
                (exists|q: int|
                    0 <= q < k && #[trigger] is_lit_to(states, set@[q] as int, c, j)) ==> has_id(
                    r@,
                    j,
                ),
        decreases set@.len() - k,
    {
        let i = set[k];
        let ghost r_pre = r@;
        match nfa.states[i] {
            NState::Literal(c2, o) => {
                if c2 == c {
                    r.push(o);
                    proof {
                        assert(is_lit_to(states, i as int, c, o as int));
                        assert(seq_set(set@).contains(i as int)) by {
                            assert(set@[k as int] as int == i as int);
                        }
                        assert(mset.contains(o as int));
                        assert forall|j: int| #[trigger] has_id(r@, j) implies mset.contains(
                            j,
                        ) by {
                            let q = choose|q: int| 0 <= q < r@.len() && (r@[q]) as int == j;
                            if q < r_pre.len() {
                                assert(r_pre[q] as int == j);
                                assert(has_id(r_pre, j));
                            }
                        }
                    }
                }
            }
            _ => {}
        }
        k = k + 1;
        proof {
            assert forall|j: int|
                (exists|q: int|
                    0 <= q < k && #[trigger] is_lit_to(states, set@[q] as int, c, j)) implies has_id(
                r@,
                j,
            ) by {
                let q = choose|q: int|
                    0 <= q < k && #[trigger] is_lit_to(states, set@[q] as int, c, j);
                if q < k - 1 {
                    assert(has_id(r_pre, j));
                    let w = choose|w: int| 0 <= w < r_pre.len() && (r_pre[w]) as int == j;
                    assert(r@[w] as int == j);
                } else {
                    assert(r@[r@.len() - 1] as int == j);
                }
            }
        }
    }
    proof {
        assert forall|j: int| mset.contains(j) implies #[trigger] has_id(r@, j) by {
            let i = choose|i: int| seq_set(set@).contains(i) && #[trigger] is_lit_to(states, i, c, j);
            let q = choose|q: int| 0 <= q < set@.len() && (set@[q]) as int == i;
            assert(is_lit_to(states, set@[q] as int, c, j));
        }
    }
    r
}

/// Whether two id sequences are equal.
fn vec_eq(a: &Vec<usize>, b: &Vec<usize>) -> (r: bool)
    ensures
        r == (a@ == b@),
{
    if a.len() != b.len() {
        return false;
    }
    let mut k: usize = 0;
    while k < a.len()
        invariant
            k <= a@.len(),
            a@.len() == b@.len(),
            forall|q: int| 0 <= q < k ==> a@[q] == b@[q],
        decreases a@.len() - k,
    {
        if a[k] != b[k] {
            return false;
        }
        k = k + 1;
    }
    proof {
        assert(a@ =~= b@);
    }
    true
}

/// The index of a canonical set among those already allocated, if any.
fn find_set(sets: &Vec<Vec<usize>>, s: &Vec<usize>) -> (r: Option<usize>)
    ensures
        match r {
            Some(j) => j < sets@.len() && sets@[j as int]@ == s@,
            None => forall|i: int| 0 <= i < sets@.len() ==> (#[trigger] sets@[i])@ != s@,
        },
{
    let mut k: usize = 0;
    while k < sets.len()
        invariant
            k <= sets@.len(),
            forall|i: int| 0 <= i < k ==> (#[trigger] sets@[i])@ != s@,
        decreases sets@.len() - k,
    {
        if vec_eq(&sets[k], s) {
            return Some(k);
        }
        k = k + 1;
    }
    None
}

/// Whether the sequence holds the id `x`.
fn contains_usize(v: &Vec<usize>, x: usize) -> (r: bool)
    ensures
        r == has_id(v@, x as int),
{
    let mut k: usize = 0;
    while k < v.len()
        invariant
            k <= v@.len(),
            forall|q: int| 0 <= q < k ==> (#[trigger] v@[q]) != x,
        decreases v@.len() - k,
    {
        if v[k] == x {
            proof {
                assert(v@[k as int] as int == x as int);
            }
            return true;
        }
        k = k + 1;
    }
    proof {
        if has_id(v@, x as int) {
            let q = choose|q: int| 0 <= q < v@.len() && (v@[q]) as int == x as int;
        }
    }
    false
}

/// The observed alphabet of the NFA: the characters of its literal states,
/// each once, in order of first appearance.
pub fn alphabet(nfa: &Nfa) -> (r: Vec<char>)
    ensures
        r@ == spec_alphabet(nfa.states@),
        r@.no_duplicates(),
        forall|c: char| r@.contains(c) <==> has_lit(nfa.states@, c),
{
    let ghost states = nfa.states@;
    let mut r: Vec<char> = Vec::new();
    let mut i: usize = 0;
    proof {
        assert(r@ =~= Seq::<char>::empty());
    }
    while i < nfa.states.len()
        invariant
            i <= states.len(),
            nfa.states@ == states,
            r@.no_duplicates(),
            alpha_acc(states, i as int, r@) == spec_alphabet(states),
            forall|c: char| #[trigger] r@.contains(c) ==> has_lit(states, c),
            forall|q: int|
                0 <= q < i ==> match #[trigger] states[q] {
                    NState::Literal(c2, _) => r@.contains(c2),
                    _ => true,
                },
        decreases states.len() - i,
    {
        let ghost r_pre = r@;
        match nfa.states[i] {
            NState::Literal(c, _) => {
                let mut seen = false;
                let mut k: usize = 0;
                while k < r.len()
                    invariant
                        k <= r@.len(),
                        seen ==> r@.contains(c),
                        !seen ==> forall|q: int| 0 <= q < k ==> (#[trigger] r@[q]) != c,
                    decreases r@.len() - k,
                {
                    if r[k] == c {
                        seen = true;
                        proof {
                            assert(r@[k as int] == c);
                        }
                    }
                    k = k + 1;
                }
                if !seen {
                    r.push(c);
                    proof {
                        assert(is_lit(states, i as int, c));
                        assert(r@[r@.len() - 1] == c);
                        assert forall|c2: char| #[trigger] r@.contains(c2) implies has_lit(
                            states,
                            c2,
                        ) by {
                            let q = choose|q: int| 0 <= q < r@.len() && r@[q] == c2;
                            if q < r_pre.len() {
                                assert(r_pre.contains(c2));
                            }
                        }
                        assert forall|q1: int, q2: int| 0 <= q1 < q2 < r@.len() implies r@[q1]
                            != r@[q2] by {
                            if q2 == r@.len() - 1 {
                                assert(!r_pre.contains(c));
                                assert(r_pre[q1] == r@[q1]);
                                if r@[q1] == c {
                                    assert(r_pre.contains(c));
                                }
                            }
                        }
                    }
                } else {
                    proof {
                        assert(is_lit(states, i as int, c));
                    }
                }
                proof {
                    assert(r@ == (if r_pre.contains(c) {
                        r_pre
                    } else {
                        r_pre.push(c)
                    })) by {
                        if !seen && r_pre.contains(c) {
                            let q = choose|q: int| 0 <= q < r_pre.len() && r_pre[q] == c;
                        }
                    }
                }
            }
            _ => {}
        }
        i = i + 1;
        proof {
            assert(alpha_acc(states, i as int, r@) == alpha_acc(states, i - 1 as int, r_pre));
            assert forall|q: int| 0 <= q < r_pre.len() implies r@.contains(#[trigger] r_pre[q]) by {
                assert(r@[q] == r_pre[q]);
            }
        }
    }
    proof {
        assert forall|c: char| has_lit(states, c) implies r@.contains(c) by {
            let q = choose|q: int| #[trigger] is_lit(states, q, c);
        }
    }
    r
}

/// The bitmask of a canonical id sequence: the sum of `2^id` over its ids.
spec fn mask(s: Seq<usize>) -> nat
    decreases s.len(),
{
    if s.len() == 0 {
        0
    } else {
        mask(s.drop_last()) + pow2(s.last() as nat)
    }
}

/// Powers of two do not decrease.
proof fn lemma_pow2_le(e1: nat, e2: nat)
    requires
        e1 <= e2,
    ensures
        pow2(e1) <= pow2(e2),
{
    if e1 < e2 {
        lemma_pow2_strictly_increases(e1, e2);
    }
}

/// The bitmask of a canonical sequence over ids below `m` lies below `2^m`.
proof fn lemma_mask_bound(s: Seq<usize>, m: nat)
    requires
        sorted_strict(s),
        forall|k: int| 0 <= k < s.len() ==> (#[trigger] s[k]) < m,
    ensures
        mask(s) < pow2(m),
    decreases s.len(),
{
    if s.len() == 0 {
        lemma_pow2_pos(m);
    } else {
        let l = s.last() as nat;
        assert(forall|k: int| 0 <= k < s.drop_last().len() ==> (#[trigger] s.drop_last()[k]) < l);
        lemma_mask_bound(s.drop_last(), l);
        lemma_pow2_adds(l, 1);
        assert(pow2(1) == 2) by {
            vstd::arithmetic::power2::lemma2_to64();
        }
        lemma_pow2_le(l + 1, m);
    }
}

/// Distinct canonical sequences have distinct bitmasks.
proof fn lemma_mask_inj(s1: Seq<usize>, s2: Seq<usize>)
    requires
        sorted_strict(s1),
        sorted_strict(s2),
        s1 != s2,
    ensures
        mask(s1) != mask(s2),
    decreases s1.len() + s2.len(),
{
    if s1.len() == 0 {
        if s2.len() == 0 {
            assert(s1 =~= s2);
        }
        lemma_pow2_pos(s2.last() as nat);
        assert(mask(s2) >= pow2(s2.last() as nat));
    } else if s2.len() == 0 {
        lemma_pow2_pos(s1.last() as nat);
        assert(mask(s1) >= pow2(s1.last() as nat));
    } else {
        let l1 = s1.last() as nat;
        let l2 = s2.last() as nat;
        if l1 < l2 {
            lemma_mask_bound(s1, l1 + 1);
            lemma_pow2_le(l1 + 1, l2);
        } else if l2 < l1 {
            lemma_mask_bound(s2, l2 + 1);
            lemma_pow2_le(l2 + 1, l1);
        } else {
            assert(s1 =~= s1.drop_last().push(s1.last()));
            assert(s2 =~= s2.drop_last().push(s2.last()));
            assert(s1.drop_last() != s2.drop_last());
            lemma_mask_inj(s1.drop_last(), s2.drop_last());
            lemma_mask_bound(s1.drop_last(), l1);
            lemma_mask_bound(s2.drop_last(), l2);
        }
    }
}

/// There are at most `2^n` pairwise distinct canonical sets of ids below `n`.
proof fn lemma_distinct_canonical_bound(vs: Seq<Seq<usize>>, n: nat)
    requires
        forall|i: int| 0 <= i < vs.len() ==> canonical(#[trigger] vs[i], n),
        forall|i1: int, i2: int| 0 <= i1 < i2 < vs.len() ==> vs[i1] != vs[i2],
    ensures
        vs.len() <= pow2(n),
{
    let ms = vs.map_values(|s: Seq<usize>| mask(s) as int);
    assert(ms.len() == vs.len());
    assert forall|i1: int, i2: int| 0 <= i1 < i2 < ms.len() implies ms[i1] != ms[i2] by {
        lemma_mask_inj(vs[i1], vs[i2]);
    }
    assert(ms.no_duplicates());
    ms.unique_seq_to_set();
    assert forall|x: int| ms.to_set().contains(x) implies set_int_range(
        0,
        pow2(n) as int,
    ).contains(x) by {
        let i = choose|i: int| 0 <= i < ms.len() && ms[i] == x;
        lemma_mask_bound(vs[i], n);
    }
    lemma_int_range(0, pow2(n) as int);
    lemma_len_subset(ms.to_set(), set_int_range(0, pow2(n) as int));
}


/// The rows of a transition table as mathematical values.
pub open spec fn rows_view(table: Seq<Vec<Option<usize>>>) -> Seq<Seq<Option<usize>>> {
    table.map_values(|r: Vec<Option<usize>>| r@)
}

/// DFA state `j` is reachable from state 0 in at most `n` table steps.
pub open spec fn treach(t: Seq<Seq<Option<usize>>>, j: int, n: nat) -> bool
    decreases n,
{
    if j == 0 {
        true
    } else if n == 0 {
        false
    } else {
        exists|i: int, k: int|
            0 <= i < t.len() && 0 <= k < t[i].len() && (#[trigger] t[i][k]) is Some && t[i][k]->0
                as int == j && treach(t, i, (n - 1) as nat)
    }
}

/// DFA state `j` is reachable from the start state through the table.
pub open spec fn dfa_reachable(t: Seq<Seq<Option<usize>>>, j: int) -> bool {
    exists|n: nat| treach(t, j, n)
}

/// One table extends another: it has at least the same rows, each at least as
/// long where present.
pub open spec fn table_extends(t1: Seq<Seq<Option<usize>>>, t2: Seq<Seq<Option<usize>>>) -> bool {
    &&& t2.len() >= t1.len()
    &&& forall|i: int|
        0 <= i < t1.len() ==> (#[trigger] t2[i]).len() >= t1[i].len() && forall|k: int|
            0 <= k < t1[i].len() ==> t2[i][k] == t1[i][k]
}

/// Reachability is preserved when the table grows.
proof fn lemma_treach_extend(t1: Seq<Seq<Option<usize>>>, t2: Seq<Seq<Option<usize>>>, j: int, n: nat)
    requires
        table_extends(t1, t2),
        treach(t1, j, n),
    ensures
        treach(t2, j, n),
    decreases n,
{
    if j != 0 {
        let (i, k) = choose|i: int, k: int|
            0 <= i < t1.len() && 0 <= k < t1[i].len() && (#[trigger] t1[i][k]) is Some && t1[i][k]->0
                as int == j && treach(t1, i, (n - 1) as nat);
        lemma_treach_extend(t1, t2, i, (n - 1) as nat);
        assert(t2[i][k] == t1[i][k]);
        assert(0 <= i < t2.len() && 0 <= k < t2[i].len() && t2[i][k] is Some && t2[i][k]->0
            as int == j && treach(t2, i, (n - 1) as nat));
    }
}

/// The canonical set each DFA state stands for.
pub open spec fn set_views(sets: Seq<Vec<usize>>) -> Seq<Seq<usize>> {
    sets.map_values(|v: Vec<usize>| v@)
}

/// One transition-table entry is correct: `Some(j)` names the DFA state whose
/// canonical set is exactly the epsilon closure of `move(src, c)`, and `None`
/// records that this closure is empty (reject).
pub open spec fn entry_ok(
    states: Seq<NState>,
    vs: Seq<Seq<usize>>,
    src: Seq<usize>,
    c: char,
    e: Option<usize>,
) -> bool {
    match e {
        Some(j) => 0 <= j < vs.len() && forall|q: int|
            #[trigger] has_id(vs[j as int], q) <==> move_closure(states, seq_set(src), c).contains(
                q,
            ),
        None => forall|q: int| !(#[trigger] move_closure(states, seq_set(src), c).contains(q)),
    }
}

/// An entry stays correct when more DFA states are allocated.
proof fn lemma_entry_ok_extend(
    states: Seq<NState>,
    vs: Seq<Seq<usize>>,
    vs2: Seq<Seq<usize>>,
    src: Seq<usize>,
    c: char,
    e: Option<usize>,
)
    requires
        entry_ok(states, vs, src, c, e),
        vs2.len() >= vs.len(),
        forall|q: int| 0 <= q < vs.len() ==> vs2[q] == vs[q],
    ensures
        entry_ok(states, vs2, src, c, e),
{
}

/// The DFA `d`, with state-set labels `vs`, is the subset construction of
/// the NFA given by `states`, `start` and `accept`: state 0 is the epsilon
/// closure of the start; every table entry is the closure of the literal
/// moves out of its source set (`None` when that closure is empty); a state
/// is accepting exactly when its set holds the accept id; the alphabet lists
/// each observed literal character once; and no two DFA state ids stand for
/// the same canonical set.
pub open spec fn subset_construction_ok(
    states: Seq<NState>,
    start: usize,
    accept: usize,
    d: DFA,
    vs: Seq<Seq<usize>>,
) -> bool {
    &&& d.start == 0
    &&& d.table@.len() == vs.len()
    &&& vs.len() >= 1
    &&& d.accepts@ == spec_alphabet(states)
    &&& d.accepts@.no_duplicates()
    &&& forall|c: char| d.accepts@.contains(c) <==> has_lit(states, c)
    &&& forall|i: int| 0 <= i < vs.len() ==> canonical(#[trigger] vs[i], states.len())
    &&& forall|i: int| 0 <= i < vs.len() ==> (#[trigger] vs[i]).len() > 0
    &&& forall|i1: int, i2: int| 0 <= i1 < i2 < vs.len() ==> vs[i1] != vs[i2]
    &&& forall|j: int| #[trigger] has_id(vs[0], j) <==> spec_closure(
        states,
        seq_set(seq![start]),
    ).contains(j)
    &&& forall|i: int| 0 <= i < vs.len() ==> (#[trigger] d.table@[i])@.len() == d.accepts@.len()
    &&& forall|i: int, k: int|
        0 <= i < vs.len() && 0 <= k < d.accepts@.len() ==> entry_ok(
            states,
            vs,
            vs[i],
            d.accepts@[k],
            #[trigger] d.table@[i]@[k],
        )
    &&& forall|x: usize| #[trigger] d.out@.contains(x) <==> (x < vs.len() && has_id(
        vs[x as int],
        accept as int,
    ))
    &&& forall|j: int| 0 <= j < vs.len() ==> dfa_reachable(rows_view(d.table@), j)
}

/// Subset construction, returning the DFA together with the canonical NFA
/// state set each DFA state id stands for.
pub fn determinize_sets(nfa: &Nfa) -> (r: (DFA, Vec<Vec<usize>>))
    requires
        wf_nfa(nfa),
    ensures
        subset_construction_ok(nfa.states@, nfa.start, nfa.accept, r.0, set_views(r.1@)),
{
    let ghost states = nfa.states@;
    let n = nfa.states.len();
    let ab = alphabet(nfa);
    let mut seed0: Vec<usize> = Vec::new();
    seed0.push(nfa.start);
    let d0 = closure(nfa, &seed0);
    proof {
        assert(seed0@ =~= seq![nfa.start]);
    }
    let ghost cstart = spec_closure(states, seq_set(seq![nfa.start]));
    let mut sets: Vec<Vec<usize>> = Vec::new();
    sets.push(d0);
    let mut table: Vec<Vec<Option<usize>>> = Vec::new();
    let mut out: Vec<usize> = Vec::new();
    let mut done: usize = 0;
    proof {
        assert(set_views(sets@)[0] == d0@);
        lemma_distinct_canonical_bound(set_views(sets@), states.len());
        assert(treach(rows_view(table@), 0, 0));
        assert(eps_reach_n(states, nfa.start as int, nfa.start as int, 0));
        assert(eps_reaches(states, nfa.start as int, nfa.start as int));
        assert(seq_set(seq![nfa.start]).contains(nfa.start as int)) by {
            assert(seq![nfa.start][0] as int == nfa.start as int);
        }
        assert(cstart.contains(nfa.start as int)) by {
            assert(exists|i: int|
                seq_set(seq![nfa.start]).contains(i) && eps_reaches(states, i, nfa.start as int));
        }
        assert(has_id(d0@, nfa.start as int));
        assert(d0@.len() > 0) by {
            let q = choose|q: int| 0 <= q < d0@.len() && (d0@[q]) as int == nfa.start as int;
        }
    }
    while done < sets.len()
        invariant
            nfa.states@ == states,
            wf_nfa(nfa),
            n == states.len(),
            cstart == spec_closure(states, seq_set(seq![nfa.start])),
            ab@.no_duplicates(),
            forall|c: char| ab@.contains(c) <==> has_lit(states, c),
            1 <= sets@.len(),
            done <= sets@.len(),
            sets@.len() <= pow2(states.len()),
            table@.len() == done,
            forall|i: int|
                0 <= i < sets@.len() ==> canonical(#[trigger] set_views(sets@)[i], states.len()),
            forall|i: int| 0 <= i < sets@.len() ==> (#[trigger] set_views(sets@)[i]).len() > 0,
            forall|i1: int, i2: int|
                0 <= i1 < i2 < sets@.len() ==> set_views(sets@)[i1] != set_views(sets@)[i2],
            forall|j: int| #[trigger] has_id(set_views(sets@)[0], j) <==> cstart.contains(j),
            forall|i: int| 0 <= i < done ==> (#[trigger] table@[i])@.len() == ab@.len(),
            forall|i: int, k: int|
                0 <= i < done && 0 <= k < ab@.len() ==> entry_ok(
                    states,
                    set_views(sets@),
                    set_views(sets@)[i],
                    ab@[k],
                    #[trigger] table@[i]@[k],
                ),
            forall|x: usize| #[trigger] out@.contains(x) <==> (x < done && has_id(
                set_views(sets@)[x as int],
                nfa.accept as int,
            )),
            forall|j: int| 0 <= j < sets@.len() ==> dfa_reachable(rows_view(table@), j),
        decreases pow2(states.len()) - sets@.len(), sets@.len() - done,
    {
        let ghost vs_outer = set_views(sets@);
        if contains_usize(&sets[done], nfa.accept) {
            let ghost out_pre = out@;
            out.push(done);
            proof {
                assert forall|x: usize| #[trigger] out@.contains(x) implies (x < done + 1 && has_id(
                    set_views(sets@)[x as int],
                    nfa.accept as int,
                )) by {
                    let q = choose|q: int| 0 <= q < out@.len() && out@[q] == x;
                    if q < out_pre.len() {
                        assert(out_pre.contains(x));
                    }
                }
                assert forall|x: usize| (x < done + 1 && has_id(
                    set_views(sets@)[x as int],
                    nfa.accept as int,
                )) implies #[trigger] out@.contains(x) by {
                    if x < done {
                        assert(out_pre.contains(x));
                        let q = choose|q: int| 0 <= q < out_pre.len() && out_pre[q] == x;
                        assert(out@[q] == x);
                    } else {
                        assert(out@[out@.len() - 1] == done);
                    }
                }
            }
        } else {
            proof {
                assert forall|x: usize| #[trigger] out@.contains(x) implies (x < done + 1 && has_id(
                    set_views(sets@)[x as int],
                    nfa.accept as int,
                )) by {}
                assert forall|x: usize| (x < done + 1 && has_id(
                    set_views(sets@)[x as int],
                    nfa.accept as int,
                )) implies #[trigger] out@.contains(x) by {
                    if x == done {
                        assert(!has_id(set_views(sets@)[x as int], nfa.accept as int));
                    }
                }
            }
        }
        let mut row: Vec<Option<usize>> = Vec::new();
        proof {
            let t_old = rows_view(table@);
            let t_new = rows_view(table@).push(row@);
            assert(table_extends(t_old, t_new));
            assert forall|j: int| 0 <= j < sets@.len() implies dfa_reachable(t_new, j) by {
                assert(dfa_reachable(t_old, j));
                let n = choose|n: nat| treach(t_old, j, n);
                lemma_treach_extend(t_old, t_new, j, n);
                assert(treach(t_new, j, n));
            }
        }
        let mut k: usize = 0;
        while k < ab.len()
            invariant
                nfa.states@ == states,
                wf_nfa(nfa),
                n == states.len(),
                done < sets@.len(),
                sets@.len() <= pow2(states.len()),
                row@.len() == k <= ab@.len(),
                forall|i: int|
                    0 <= i < sets@.len() ==> canonical(
                        #[trigger] set_views(sets@)[i],
                        states.len(),
                    ),
                forall|i: int| 0 <= i < sets@.len() ==> (#[trigger] set_views(sets@)[i]).len() > 0,
                forall|i1: int, i2: int|
                    0 <= i1 < i2 < sets@.len() ==> set_views(sets@)[i1] != set_views(sets@)[i2],
                vs_outer.len() <= sets@.len(),
                forall|i: int| 0 <= i < vs_outer.len() ==> set_views(sets@)[i] == vs_outer[i],
                forall|q: int|
                    0 <= q < k ==> entry_ok(
                        states,
                        set_views(sets@),
                        set_views(sets@)[done as int],
                        ab@[q],
                        #[trigger] row@[q],
                    ),
                table@.len() == done,
                forall|j: int|
                    0 <= j < sets@.len() ==> dfa_reachable(rows_view(table@).push(row@), j),
            decreases ab@.len() - k,
        {
            let ghost vs_pre = set_views(sets@);
            let c = ab[k];
            proof {
                assert(sets@[done as int]@ == set_views(sets@)[done as int]);
                assert(canonical(set_views(sets@)[done as int], states.len()));
            }
            let mv = move_set(nfa, &sets[done], c);
            let cl = closure(nfa, &mv);
            let ghost mc = move_closure(states, seq_set(set_views(sets@)[done as int]), c);
            proof {
                assert forall|j: int| #[trigger] has_id(cl@, j) <==> mc.contains(j) by {
                    assert(spec_closure(states, seq_set(mv@)) =~= mc) by {
                        assert(seq_set(mv@) =~= spec_move(
                            states,
                            seq_set(set_views(sets@)[done as int]),
                            c,
                        ));
                    }
                }
            }
            if cl.len() == 0 {
                let ghost row_pre = row@;
                row.push(None);
                proof {
                    let t_old = rows_view(table@).push(row_pre);
                    let t_new = rows_view(table@).push(row@);
                    assert(table_extends(t_old, t_new));
                    assert forall|j: int| 0 <= j < sets@.len() implies dfa_reachable(t_new, j) by {
                        assert(dfa_reachable(t_old, j));
                        let n = choose|n: nat| treach(t_old, j, n);
                        lemma_treach_extend(t_old, t_new, j, n);
                        assert(treach(t_new, j, n));
                    }
                    assert forall|q: int| !(#[trigger] mc.contains(q)) by {
                        if mc.contains(q) {
                            assert(has_id(cl@, q));
                            let w = choose|w: int| 0 <= w < cl@.len() && (cl@[w]) as int == q;
                        }
                    }
                    assert(entry_ok(states, set_views(sets@), set_views(sets@)[done as int], c, None::<usize>));
                }

            } else {
                let ghost row_pre = row@;
                let ghost sets_pre_len = sets@.len();
                let j = match find_set(&sets, &cl) {
                    Some(j) => j,
                    None => {
                        let j = sets.len();
                        sets.push(cl);
                        proof {
                            assert(set_views(sets@) =~= vs_pre.push(sets@[sets@.len() - 1]@));
                            assert forall|i1: int, i2: int|
                                0 <= i1 < i2 < sets@.len() implies set_views(sets@)[i1]
                                != set_views(sets@)[i2] by {
                                if i2 == sets@.len() - 1 {
                                    assert(set_views(sets@)[i1] == vs_pre[i1]);
                                }
                            }
                            lemma_distinct_canonical_bound(set_views(sets@), states.len());
                        }
                        j
                    }
                };
                row.push(Some(j));
                proof {
                    assert(entry_ok(
                        states,
                        set_views(sets@),
                        set_views(sets@)[done as int],
                        c,
                        Some(j),
                    )) by {
                        assert(set_views(sets@)[j as int] == sets@[j as int]@);
                    }
                    let t_old = rows_view(table@).push(row_pre);
                    let t_new = rows_view(table@).push(row@);
                    assert(table_extends(t_old, t_new));
                    assert forall|j2: int| 0 <= j2 < sets@.len() implies dfa_reachable(
                        t_new,
                        j2,
                    ) by {
                        if j2 < sets_pre_len {
                            assert(dfa_reachable(t_old, j2));
                            let n = choose|n: nat| treach(t_old, j2, n);
                            lemma_treach_extend(t_old, t_new, j2, n);
                            assert(treach(t_new, j2, n));
                        } else {
                            // the freshly allocated state: reached through the
                            // entry just recorded in this row
                            assert(j2 == j as int);
                            assert(dfa_reachable(t_old, done as int));
                            let n = choose|n: nat| treach(t_old, done as int, n);
                            lemma_treach_extend(t_old, t_new, done as int, n);
                            assert(t_new[done as int] == row@);
                            assert(row@[row@.len() - 1] == Some(j));
                            assert(0 <= done < t_new.len() && 0 <= row@.len() - 1
                                < t_new[done as int].len() && t_new[done as int][row@.len()
                                - 1] is Some && t_new[done as int][row@.len() - 1]->0 as int == j2
                                && treach(t_new, done as int, n));
                            assert(treach(t_new, j2, n + 1));
                        }
                    }
                }
            }
            k = k + 1;
            proof {
                let vs_now = set_views(sets@);
                assert forall|q: int| 0 <= q < k implies entry_ok(
                    states,
                    vs_now,
                    vs_now[done as int],
                    ab@[q],
                    #[trigger] row@[q],
                ) by {
                    if q < k - 1 {
                        lemma_entry_ok_extend(
                            states,
                            vs_pre,
                            vs_now,
                            vs_pre[done as int],
                            ab@[q],
                            row@[q],
                        );
                        assert(vs_now[done as int] == vs_pre[done as int]);
                    }
                }
            }
        }
        let ghost table_pre = table@;
        let ghost row_final = row@;
        table.push(row);
        done = done + 1;
        proof {
            assert(rows_view(table@) =~= rows_view(table_pre).push(row_final));
            let vs_now = set_views(sets@);
            assert(0 < vs_outer.len());
            assert(vs_now[0] == vs_outer[0]);
            assert forall|i: int, k2: int|
                0 <= i < done && 0 <= k2 < ab@.len() implies entry_ok(
                states,
                vs_now,
                vs_now[i],
                ab@[k2],
                #[trigger] table@[i]@[k2],
            ) by {
                if i < done - 1 {
                    assert(table@[i] == table@.subrange(0, table@.len() - 1)[i]);
                    lemma_entry_ok_extend(
                        states,
                        vs_outer,
                        vs_now,
                        vs_outer[i],
                        ab@[k2],
                        table@[i]@[k2],
                    );
                    assert(vs_now[i] == vs_outer[i]);
                } else {
                    assert(table@[i] == table@.last());
                }
            }
        }
    }
    let d = DFA { accepts: ab, table, start: 0, out };
    (d, sets)
}

/// NFA -> DFA by subset construction: the result is `determinize_sets`'s DFA
/// with the canonical-set labels of the states discarded, which the
/// transition table no longer needs.
pub fn determinize(nfa: &Nfa) -> (d: DFA)
    requires
        wf_nfa(nfa),
    ensures
        exists|vs: Seq<Seq<usize>>|
            #[trigger] subset_construction_ok(nfa.states@, nfa.start, nfa.accept, d, vs),
{
    let (d, sets) = determinize_sets(nfa);
    proof {
        assert(subset_construction_ok(
            nfa.states@,
            nfa.start,
            nfa.accept,
            d,
            set_views(sets@),
        ));
    }
    d
}

/// Two canonical representations with the same members are the same sequence:
/// together with the closure function's contract, taking the epsilon closure
/// of an already-closed canonical set returns it unchanged.
pub proof fn lemma_canonical_unique(s1: Seq<usize>, s2: Seq<usize>)
    requires
        sorted_strict(s1),
        sorted_strict(s2),
        forall|j: int| has_id(s1, j) <==> has_id(s2, j),
    ensures
        s1 == s2,
    decreases s1.len(),
{
    if s1.len() == 0 {
        if s2.len() > 0 {
            assert(has_id(s2, s2[0] as int));
        }
        assert(s1 =~= s2);
    } else if s2.len() == 0 {
        assert(has_id(s1, s1[0] as int));
    } else {
        assert(has_id(s1, s1[0] as int));
        assert(has_id(s2, s2[0] as int));
        let k1 = choose|k: int| 0 <= k < s2.len() && (s2[k]) as int == s1[0] as int;
        let k2 = choose|k: int| 0 <= k < s1.len() && (s1[k]) as int == s2[0] as int;
        assert(s2[0] <= s2[k1]);
        assert(s1[0] <= s1[k2]);
        assert(s1[0] == s2[0]);
        let t1 = s1.drop_first();
        let t2 = s2.drop_first();
        assert forall|j: int| has_id(t1, j) implies has_id(t2, j) by {
            let k = choose|k: int| 0 <= k < t1.len() && (t1[k]) as int == j;
            assert(s1[k + 1] as int == j);
            assert(s1[0] < s1[k + 1]);
            assert(has_id(s1, j));
            let w = choose|w: int| 0 <= w < s2.len() && (s2[w]) as int == j;
            assert(w > 0) by {
                if w == 0 {
                    assert(s2[0] as int == j);
                }
            }
            assert(t2[w - 1] as int == j);
        }
        assert forall|j: int| has_id(t2, j) implies has_id(t1, j) by {
            let k = choose|k: int| 0 <= k < t2.len() && (t2[k]) as int == j;
            assert(s2[k + 1] as int == j);
            assert(s2[0] < s2[k + 1]);
            assert(has_id(s2, j));
            let w = choose|w: int| 0 <= w < s1.len() && (s1[w]) as int == j;
            assert(w > 0) by {
                if w == 0 {
                    assert(s1[0] as int == j);
                }
            }
            assert(t1[w - 1] as int == j);
        }
        assert(sorted_strict(t1)) by {
            assert(forall|p: int, q: int|
                0 <= p < q < t1.len() ==> t1[p] == s1[p + 1] && t1[q] == s1[q + 1]);
        }
        assert(sorted_strict(t2)) by {
            assert(forall|p: int, q: int|
                0 <= p < q < t2.len() ==> t2[p] == s2[p + 1] && t2[q] == s2[q + 1]);
        }
        lemma_canonical_unique(t1, t2);
        assert forall|i: int| 0 <= i < s1.len() implies s1[i] == s2[i] by {
            if i > 0 {
                assert(t1[i - 1] == t2[i - 1]);
            }
        }
        assert(s1 =~= s2);
    }
}

/// Every DFA state of one subset construction has a counterpart with the
/// same canonical set in any other subset construction of the same NFA,
/// found by following how the state was reached.
proof fn lemma_state_corresponds(
    states: Seq<NState>,
    start: usize,
    accept: usize,
    d1: DFA,
    vs1: Seq<Seq<usize>>,
    d2: DFA,
    vs2: Seq<Seq<usize>>,
    i: int,
    n: nat,
)
    requires
        subset_construction_ok(states, start, accept, d1, vs1),
        subset_construction_ok(states, start, accept, d2, vs2),
        0 <= i < vs1.len(),
        treach(rows_view(d1.table@), i, n),
    ensures
        exists|j: int| 0 <= j < vs2.len() && #[trigger] vs2[j] == vs1[i],
    decreases n,
{
    if i == 0 {
        assert forall|q: int| has_id(vs1[0], q) <==> has_id(vs2[0], q) by {
            assert(has_id(vs1[0], q) <==> spec_closure(states, seq_set(seq![start])).contains(q));
            assert(has_id(vs2[0], q) <==> spec_closure(states, seq_set(seq![start])).contains(q));
        }
        lemma_canonical_unique(vs1[0], vs2[0]);
        assert(0 <= 0 < vs2.len() && vs2[0] == vs1[0]);
    } else {
        if n == 0 {
            assert(false);
        }
        let t1 = rows_view(d1.table@);
        let (p, k) = choose|p: int, k: int|
            0 <= p < t1.len() && 0 <= k < t1[p].len() && (#[trigger] t1[p][k]) is Some && t1[p][k]->0
                as int == i && treach(t1, p, (n - 1) as nat);
        assert(t1[p] == d1.table@[p]@);
        assert(d1.table@[p]@.len() == d1.accepts@.len());
        let c = d1.accepts@[k];
        lemma_state_corresponds(states, start, accept, d1, vs1, d2, vs2, p, (n - 1) as nat);
        let p2 = choose|j: int| 0 <= j < vs2.len() && #[trigger] vs2[j] == vs1[p];
        assert(entry_ok(states, vs1, vs1[p], c, d1.table@[p]@[k]));
        assert(entry_ok(states, vs2, vs2[p2], c, d2.table@[p2]@[k]));
        let mc = move_closure(states, seq_set(vs1[p]), c);
        assert(d1.table@[p]@[k] == Some(i as usize));
        assert((i as usize) as int == i);
        assert(forall|q: int| #[trigger] has_id(vs1[i], q) <==> mc.contains(q));
        match d2.table@[p2]@[k] {
            Some(j2) => {
                assert(forall|q: int| #[trigger] has_id(vs2[j2 as int], q) <==> mc.contains(q));
                assert(forall|q: int| #[trigger] has_id(vs1[i], q) <==> has_id(vs2[j2 as int], q));
                lemma_canonical_unique(vs1[i], vs2[j2 as int]);
                assert(0 <= (j2 as int) && (j2 as int) < vs2.len() && vs2[j2 as int] == vs1[i]);
            },
            None => {
                assert(forall|q: int| !(#[trigger] mc.contains(q)));
                assert(vs1[i].len() > 0);
                assert(has_id(vs1[i], vs1[i][0] as int));
                assert(false);
            },
        }
    }
}

/// A duplicate-free sequence of indices into a range is no longer than the
/// range.
proof fn lemma_nodup_range_len(f: Seq<int>, m: int)
    requires
        0 <= m,
        f.no_duplicates(),
        forall|i: int| 0 <= i < f.len() ==> 0 <= #[trigger] f[i] < m,
    ensures
        f.len() <= m,
{
    f.unique_seq_to_set();
    assert forall|x: int| f.to_set().contains(x) implies set_int_range(0, m).contains(x) by {
        let i = choose|i: int| 0 <= i < f.len() && f[i] == x;
    }
    lemma_int_range(0, m);
    lemma_len_subset(f.to_set(), set_int_range(0, m));
}

/// `f` renames the first DFA's state ids onto the second's: an injection
/// under which the canonical sets, the start state, every transition-table
/// entry and the accepting markings correspond.
pub open spec fn dfa_isomorphism(
    d1: DFA,
    vs1: Seq<Seq<usize>>,
    d2: DFA,
    vs2: Seq<Seq<usize>>,
    accept: usize,
    f: Seq<int>,
) -> bool {
    &&& f.len() == vs1.len()
    &&& forall|i: int| 0 <= i < f.len() ==> 0 <= #[trigger] f[i] < vs2.len()
    &&& (f.len() > 0 ==> f[0] == 0)
    &&& forall|i1: int, i2: int| 0 <= i1 < i2 < f.len() ==> f[i1] != f[i2]
    &&& forall|i: int| 0 <= i < f.len() ==> vs2[#[trigger] f[i]] == vs1[i]
    &&& forall|i: int, k: int|
        0 <= i < f.len() && 0 <= k < d1.accepts@.len() ==> match #[trigger] d1.table@[i]@[k] {
            Some(j) => d2.table@[f[i]]@[k] is Some && d2.table@[f[i]]@[k]->0 as int == f[j as int],
            None => d2.table@[f[i]]@[k] is None,
        }
    &&& forall|i: int|
        0 <= i < f.len() ==> (d1.out@.contains(i as usize) <==> d2.out@.contains(
            (#[trigger] f[i]) as usize,
        ))
}

/// Determinization is canonical up to a renaming of DFA state ids: any two
/// subset constructions of the same NFA have the same alphabet and the same
/// number of states, and some renaming of state ids carries one onto the
/// other, entry for entry. In particular, re-running determinization on the
/// same NFA yields an isomorphic DFA.
pub proof fn lemma_determinization_unique(
    states: Seq<NState>,
    start: usize,
    accept: usize,
    d1: DFA,
    vs1: Seq<Seq<usize>>,
    d2: DFA,
    vs2: Seq<Seq<usize>>,
)
    requires
        subset_construction_ok(states, start, accept, d1, vs1),
        subset_construction_ok(states, start, accept, d2, vs2),
        vs1.len() <= usize::MAX,
        vs2.len() <= usize::MAX,
    ensures
        d1.accepts@ == d2.accepts@,
        vs1.len() == vs2.len(),
        exists|f: Seq<int>| #[trigger] dfa_isomorphism(d1, vs1, d2, vs2, accept, f),
{
    let t1 = rows_view(d1.table@);
    let t2 = rows_view(d2.table@);
    assert forall|i: int| #![trigger vs1[i]] 0 <= i < vs1.len() implies exists|j: int|
        0 <= j < vs2.len() && #[trigger] vs2[j] == vs1[i] by {
        assert(dfa_reachable(t1, i));
        let n = choose|n: nat| treach(t1, i, n);
        lemma_state_corresponds(states, start, accept, d1, vs1, d2, vs2, i, n);
    }
    let f = Seq::new(
        vs1.len(),
        |i: int| choose|j: int| 0 <= j < vs2.len() && #[trigger] vs2[j] == vs1[i],
    );
    assert forall|i: int| 0 <= i < f.len() implies 0 <= #[trigger] f[i] < vs2.len() && vs2[f[i]]
        == vs1[i] by {
        assert(dfa_reachable(t1, i));
        let n = choose|n: nat| treach(t1, i, n);
        lemma_state_corresponds(states, start, accept, d1, vs1, d2, vs2, i, n);
        let w = choose|j: int| 0 <= j < vs2.len() && #[trigger] vs2[j] == vs1[i];
        assert(0 <= w < vs2.len() && vs2[w] == vs1[i]);
        assert(f[i] == choose|j: int| 0 <= j < vs2.len() && #[trigger] vs2[j] == vs1[i]);
    }
    assert forall|i1: int, i2: int| 0 <= i1 < i2 < f.len() implies f[i1] != f[i2] by {
        if f[i1] == f[i2] {
            assert(vs1[i1] == vs2[f[i1]]);
            assert(vs1[i2] == vs2[f[i2]]);
        }
    }
    // the two start states carry the same set
    assert forall|q: int| has_id(vs1[0], q) <==> has_id(vs2[0], q) by {
        assert(has_id(vs1[0], q) <==> spec_closure(states, seq_set(seq![start])).contains(q));
        assert(has_id(vs2[0], q) <==> spec_closure(states, seq_set(seq![start])).contains(q));
    }
    lemma_canonical_unique(vs1[0], vs2[0]);
    assert(f[0] == 0) by {
        if f[0] != 0 {
            assert(vs2[0] != vs2[f[0]]);
            assert(vs2[f[0]] == vs1[0]);
        }
    }
    // equal state counts, by injecting each direction into the other
    assert(f.no_duplicates());
    lemma_nodup_range_len(f, vs2.len() as int);
    assert forall|j: int| #![trigger vs2[j]] 0 <= j < vs2.len() implies exists|i: int|
        0 <= i < vs1.len() && #[trigger] vs1[i] == vs2[j] by {
        assert(dfa_reachable(t2, j));
        let n = choose|n: nat| treach(t2, j, n);
        lemma_state_corresponds(states, start, accept, d2, vs2, d1, vs1, j, n);
    }
    let g = Seq::new(
        vs2.len(),
        |j: int| choose|i: int| 0 <= i < vs1.len() && #[trigger] vs1[i] == vs2[j],
    );
    assert forall|j: int| 0 <= j < g.len() implies 0 <= #[trigger] g[j] < vs1.len() && vs1[g[j]]
        == vs2[j] by {
        assert(exists|i: int| 0 <= i < vs1.len() && #[trigger] vs1[i] == vs2[j]);
    }
    assert forall|j1: int, j2: int| 0 <= j1 < j2 < g.len() implies g[j1] != g[j2] by {
        if g[j1] == g[j2] {
            assert(vs2[j1] == vs1[g[j1]]);
            assert(vs2[j2] == vs1[g[j2]]);
        }
    }
    assert(g.no_duplicates());
    lemma_nodup_range_len(g, vs1.len() as int);
    assert(vs1.len() == vs2.len());
    // transition entries correspond under the renaming
    assert forall|i: int, k: int|
        0 <= i < f.len() && 0 <= k < d1.accepts@.len() implies match #[trigger] d1.table@[i]@[k] {
        Some(j) => d2.table@[f[i]]@[k] is Some && d2.table@[f[i]]@[k]->0 as int == f[j as int],
        None => d2.table@[f[i]]@[k] is None,
    } by {
        let c = d1.accepts@[k];
        assert(d2.accepts@[k] == c);
        assert(entry_ok(states, vs1, vs1[i], c, d1.table@[i]@[k]));
        assert(entry_ok(states, vs2, vs2[f[i]], c, d2.table@[f[i]]@[k]));
        assert(vs2[f[i]] == vs1[i]);
        let mc = move_closure(states, seq_set(vs1[i]), c);
        match d1.table@[i]@[k] {
            Some(j) => {
                assert(forall|q: int| #[trigger] has_id(vs1[j as int], q) <==> mc.contains(q));
                match d2.table@[f[i]]@[k] {
                    Some(j2) => {
                        assert(forall|q: int| #[trigger] has_id(vs2[j2 as int], q) <==> mc.contains(
                            q,
                        ));
                        assert(vs2[f[j as int]] == vs1[j as int]);
                        assert(forall|q: int| #[trigger] has_id(vs2[j2 as int], q) <==> has_id(
                            vs2[f[j as int]],
                            q,
                        ));
                        lemma_canonical_unique(vs2[j2 as int], vs2[f[j as int]]);
                        if j2 as int != f[j as int] {
                            assert(vs2[j2 as int] != vs2[f[j as int]]);
                        }
                    },
                    None => {
                        assert(forall|q: int| !(#[trigger] mc.contains(q)));
                        assert(vs1[j as int].len() > 0);
                        assert(has_id(vs1[j as int], vs1[j as int][0] as int));
                    },
                }
            },
            None => {
                assert(forall|q: int| !(#[trigger] mc.contains(q)));
                match d2.table@[f[i]]@[k] {
                    Some(j2) => {
                        assert(forall|q: int| #[trigger] has_id(vs2[j2 as int], q) <==> mc.contains(
                            q,
                        ));
                        assert(vs2[j2 as int].len() > 0);
                        assert(has_id(vs2[j2 as int], vs2[j2 as int][0] as int));
                    },
                    None => {},
                }
            },
        }
    }
    // accepting states correspond under the renaming
    assert forall|i: int| 0 <= i < f.len() implies (d1.out@.contains(i as usize)
        <==> d2.out@.contains((#[trigger] f[i]) as usize)) by {
        assert((i as usize) as int == i);
        assert((f[i] as usize) as int == f[i]);
        assert(d1.out@.contains(i as usize) <==> ((i as usize) < vs1.len() && has_id(
            vs1[i],
            accept as int,
        )));
        assert(d2.out@.contains(f[i] as usize) <==> ((f[i] as usize) < vs2.len() && has_id(
            vs2[f[i]],
            accept as int,
        )));
        assert(vs2[f[i]] == vs1[i]);
    }
    assert(dfa_isomorphism(d1, vs1, d2, vs2, accept, f));
}

} // verus!
