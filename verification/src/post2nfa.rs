//! The NFA builder: postfix token sequence -> NFA by Thompson construction.
//!
//! The postfix sequence is processed left to right over a stack of fragments,
//! each an in-progress automaton piece with one entry state and a list of
//! dangling (not yet connected) output slots. States live in an append-only
//! arena of stable integer ids; composing fragments patches dangling slots in
//! place, exactly once per slot. A sequence that does not leave exactly one
//! fragment on the stack is rejected as an internal invariant violation.

use vstd::prelude::*;
use vstd::pervasive::unreached;
use crate::CompileError;
use crate::nfa::{NState, Nfa, wf_nfa};
use crate::regex2post::{Token, eval_from, tok_step, postfix_valid, lemma_eval_push};

verus! {

/// A state under construction: the last output slot may still be dangling
/// (`None`). A `Split`'s first output is always connected at allocation.
#[derive(Clone, Copy, Debug)]
pub enum BState {
    Lit(char, Option<usize>),
    Split(usize, Option<usize>),
}

/// An in-progress automaton piece: its entry state and the ids of the states
/// whose output slot is still dangling.
pub struct Frag {
    pub start: usize,
    pub dangling: Vec<usize>,
}

/// The state's output slot is still dangling.
spec fn slot_open(st: BState) -> bool {
    match st {
        BState::Lit(_, o) => o is None,
        BState::Split(_, o) => o is None,
    }
}

/// Id `i` names a state whose output slot is still dangling.
spec fn b_open(states: Seq<BState>, i: int) -> bool {
    0 <= i < states.len() && slot_open(states[i])
}

/// The state with its dangling output slot patched to point at `t`.
pub open spec fn close(st: BState, t: usize) -> BState {
    match st {
        BState::Lit(c, _) => BState::Lit(c, Some(t)),
        BState::Split(a, _) => BState::Split(a, Some(t)),
    }
}

/// Every connected output of every state points below `bound`.
spec fn b_wf(states: Seq<BState>, bound: nat) -> bool {
    forall|i: int|
        0 <= i < states.len() ==> match #[trigger] states[i] {
            BState::Lit(_, o) => (o is Some ==> o.unwrap() < bound),
            BState::Split(a, o) => a < bound && (o is Some ==> o.unwrap() < bound),
        }
}

/// All dangling slots claimed by the fragments of the stack, bottom first.
spec fn dangles(stack: Seq<Frag>) -> Seq<usize>
    decreases stack.len(),
{
    if stack.len() == 0 {
        Seq::empty()
    } else {
        dangles(stack.drop_last()) + stack.last().dangling@
    }
}

/// The slot lists `d` claims are consistent with the arena: pairwise
/// distinct, every listed slot open, and every open slot listed.
spec fn slots_ok(states: Seq<BState>, d: Seq<usize>) -> bool {
    &&& d.no_duplicates()
    &&& forall|q: int| 0 <= q < d.len() ==> b_open(states, #[trigger] d[q] as int)
    &&& forall|i: int|
        0 <= i < states.len() && slot_open(#[trigger] states[i]) ==> d.contains(i as usize)
}

/// The builder's invariant: fragment entries are valid ids, the dangling
/// lists of the stack account exactly for the open slots of the arena, and
/// every connected output stays inside the arena.
spec fn inv(states: Seq<BState>, stack: Seq<Frag>) -> bool {
    &&& forall|k: int| 0 <= k < stack.len() ==> (#[trigger] stack[k]).start < states.len()
    &&& slots_ok(states, dangles(stack))
    &&& b_wf(states, states.len())
}

/// An element of a shorter prefix is in every longer prefix.
proof fn lemma_take_contains(s: Seq<usize>, a: int, b: int, x: usize)
    requires
        0 <= a <= b <= s.len(),
        s.take(a).contains(x),
    ensures
        s.take(b).contains(x),
{
    let j = choose|j: int| 0 <= j < a && #[trigger] s.take(a)[j] == x;
    assert(s.take(b)[j] == x);
}

/// Pushing a fragment appends its dangling slots.
proof fn lemma_dangles_push(stack: Seq<Frag>, f: Frag)
    ensures
        dangles(stack.push(f)) == dangles(stack) + f.dangling@,
{
    assert(stack.push(f).drop_last() =~= stack);
    assert(stack.push(f).last() == f);
}


/// An in-progress automaton piece, as a mathematical value.
pub struct FragV {
    pub start: usize,
    pub dangling: Seq<usize>,
}

/// The builder's whole state as a mathematical value: the arena of states
/// under construction and the fragment stack.
pub struct BuildState {
    pub states: Seq<BState>,
    pub stack: Seq<FragV>,
}

/// The fragments of the stack as mathematical values.
pub open spec fn frags_view(stack: Seq<Frag>) -> Seq<FragV> {
    stack.map_values(|f: Frag| FragV { start: f.start, dangling: f.dangling@ })
}

/// Patch the dangling output slot of each listed state, in order, to point at
/// `target`.
pub open spec fn patch_spec(states: Seq<BState>, list: Seq<usize>, target: usize) -> Seq<BState>
    decreases list.len(),
{
    if list.len() == 0 {
        states
    } else {
        patch_spec(
            states.update(list[0] as int, close(states[list[0] as int], target)),
            list.drop_first(),
            target,
        )
    }
}

/// One step of Thompson construction on one postfix token. A literal
/// allocates a one-slot fragment; concatenation patches the first fragment's
/// dangling slots to the second fragment's entry; alternation allocates a
/// `Split` over both entries; star allocates a `Split` looping back over the
/// fragment and leaves the split's second slot dangling. `None` reports a
/// fragment-stack underflow.
pub open spec fn thompson_step(b: BuildState, t: Token) -> Option<BuildState> {
    match t {
        Token::Literal(c) => {
            let id = b.states.len() as usize;
            Some(BuildState {
                states: b.states.push(BState::Lit(c, None)),
                stack: b.stack.push(FragV { start: id, dangling: seq![id] }),
            })
        },
        Token::Star => if b.stack.len() < 1 {
            None
        } else {
            let e = b.stack.last();
            let id = b.states.len() as usize;
            let grown = b.states.push(BState::Split(e.start, None));
            Some(BuildState {
                states: patch_spec(grown, e.dangling, id),
                stack: b.stack.drop_last().push(FragV { start: id, dangling: seq![id] }),
            })
        },
        Token::Concat => if b.stack.len() < 2 {
            None
        } else {
            let e2 = b.stack.last();
            let e1 = b.stack.drop_last().last();
            Some(BuildState {
                states: patch_spec(b.states, e1.dangling, e2.start),
                stack: b.stack.drop_last().drop_last().push(
                    FragV { start: e1.start, dangling: e2.dangling },
                ),
            })
        },
        Token::Alt => if b.stack.len() < 2 {
            None
        } else {
            let e2 = b.stack.last();
            let e1 = b.stack.drop_last().last();
            let id = b.states.len() as usize;
            Some(BuildState {
                states: b.states.push(BState::Split(e1.start, Some(e2.start))),
                stack: b.stack.drop_last().drop_last().push(
                    FragV { start: id, dangling: e1.dangling + e2.dangling },
                ),
            })
        },
    }
}

/// Run Thompson construction over a token sequence from a given state.
pub open spec fn thompson_run(ts: Seq<Token>, b: BuildState) -> Option<BuildState>
    decreases ts.len(),
{
    if ts.len() == 0 {
        Some(b)
    } else {
        match thompson_step(b, ts[0]) {
            None => None,
            Some(b2) => thompson_run(ts.drop_first(), b2),
        }
    }
}

/// The builder's initial state: no states, no fragments.
pub open spec fn init_build() -> BuildState {
    BuildState { states: Seq::empty(), stack: Seq::empty() }
}

/// The NFA Thompson construction denotes for a postfix token sequence:
/// its state arena, start id and accept id. The empty sequence denotes the
/// automaton accepting only the empty string; a sequence that does not leave
/// exactly one fragment denotes nothing (`None`). A non-empty run finalizes
/// by patching the last fragment's dangling slots to a fresh `Match` state.
pub open spec fn thompson(ts: Seq<Token>) -> Option<(Seq<NState>, usize, usize)> {
    if ts.len() == 0 {
        Some((seq![NState::Match], 0usize, 0usize))
    } else {
        match thompson_run(ts, init_build()) {
            None => None,
            Some(b) => if b.stack.len() != 1 {
                None
            } else {
                let f = b.stack[0];
                let m = b.states.len() as usize;
                let patched = patch_spec(b.states, f.dangling, m);
                Some((patched.map_values(|st: BState| conv(st)).push(NState::Match), f.start, m))
            },
        }
    }
}

/// Running construction over a concatenation runs the parts in order.
proof fn lemma_thompson_run_app(a: Seq<Token>, b: Seq<Token>, st: BuildState)
    ensures
        thompson_run(a + b, st) == match thompson_run(a, st) {
            None => None::<BuildState>,
            Some(m) => thompson_run(b, m),
        },
    decreases a.len(),
{
    if a.len() == 0 {
        assert(a + b =~= b);
    } else {
        assert((a + b)[0] == a[0]);
        match thompson_step(st, a[0]) {
            None => {}
            Some(st2) => {
                assert((a + b).drop_first() =~= a.drop_first() + b);
                lemma_thompson_run_app(a.drop_first(), b, st2);
            }
        }
    }
}

/// The in-place patching of distinct open slots equals the spec-level fold.
proof fn lemma_patch_spec(pre: Seq<BState>, list: Seq<usize>, target: usize)
    requires
        list.no_duplicates(),
        forall|k: int| 0 <= k < list.len() ==> b_open(pre, #[trigger] list[k] as int),
    ensures
        patch_spec(pre, list, target).len() == pre.len(),
        forall|k: int|
            0 <= k < list.len() ==> patch_spec(pre, list, target)[#[trigger] list[k] as int]
                == close(pre[list[k] as int], target),
        forall|i: int|
            0 <= i < pre.len() && !list.contains(i as usize) ==> patch_spec(pre, list, target)[i]
                == pre[i],
    decreases list.len(),
{
    if list.len() > 0 {
        let id = list[0];
        let st1 = pre.update(id as int, close(pre[id as int], target));
        let rest = list.drop_first();
        assert forall|k: int| 0 <= k < rest.len() implies b_open(st1, #[trigger] rest[k] as int) by {
            assert(rest[k] == list[k + 1]);
            assert(list[k + 1] != list[0]);
            assert(b_open(pre, rest[k] as int));
        }
        lemma_patch_spec(st1, rest, target);
        assert forall|k: int|
            0 <= k < list.len() implies patch_spec(pre, list, target)[#[trigger] list[k] as int]
            == close(pre[list[k] as int], target) by {
            if k == 0 {
                assert(!rest.contains(id)) by {
                    if rest.contains(id) {
                        let q = choose|q: int| 0 <= q < rest.len() && rest[q] == id;
                        assert(list[q + 1] == list[0]);
                    }
                }
                assert(patch_spec(st1, rest, target)[id as int] == st1[id as int]);
            } else {
                assert(rest[k - 1] == list[k]);
                assert(patch_spec(st1, rest, target)[rest[k - 1] as int] == close(
                    st1[rest[k - 1] as int],
                    target,
                ));
                assert(list[k] != list[0]);
                assert(st1[list[k] as int] == pre[list[k] as int]);
            }
        }
        assert forall|i: int|
            0 <= i < pre.len() && !list.contains(i as usize) implies patch_spec(
            pre,
            list,
            target,
        )[i] == pre[i] by {
            assert(!rest.contains(i as usize)) by {
                if rest.contains(i as usize) {
                    let q = choose|q: int| 0 <= q < rest.len() && rest[q] == i as usize;
                    assert(list[q + 1] == i as usize);
                }
            }
            assert(i != id as int) by {
                assert(list[0] == id);
            }
            assert(st1[i] == pre[i]);
        }
    }
}

/// A patch described pointwise equals the spec-level fold.
proof fn lemma_patch_matches(pre: Seq<BState>, post: Seq<BState>, list: Seq<usize>, target: usize)
    requires
        pre.len() <= usize::MAX,
        list.no_duplicates(),
        forall|k: int| 0 <= k < list.len() ==> b_open(pre, #[trigger] list[k] as int),
        post.len() == pre.len(),
        forall|k: int|
            0 <= k < list.len() ==> post[#[trigger] list[k] as int] == close(
                pre[list[k] as int],
                target,
            ),
        forall|i: int| 0 <= i < pre.len() && !list.contains(i as usize) ==> post[i] == pre[i],
    ensures
        post == patch_spec(pre, list, target),
{
    lemma_patch_spec(pre, list, target);
    assert forall|i: int| 0 <= i < post.len() implies post[i] == patch_spec(
        pre,
        list,
        target,
    )[i] by {
        if list.contains(i as usize) {
            let k = choose|k: int| 0 <= k < list.len() && list[k] == i as usize;
            assert(list[k] as int == i);
            assert(post[list[k] as int] == close(pre[list[k] as int], target));
            assert(patch_spec(pre, list, target)[list[k] as int] == close(
                pre[list[k] as int],
                target,
            ));
        }
    }
    assert(post =~= patch_spec(pre, list, target));
}

/// Patch the dangling output slot of each listed state to point at `target`.
/// Exactly the listed slots change; each becomes connected.
fn patch(states: &mut Vec<BState>, list: &Vec<usize>, target: usize)
    requires
        forall|k: int| 0 <= k < list@.len() ==> b_open(old(states)@, #[trigger] list@[k] as int),
        list@.no_duplicates(),
    ensures
        final(states)@.len() == old(states)@.len(),
        forall|k: int|
            0 <= k < list@.len() ==> final(states)@[#[trigger] list@[k] as int] == close(
                old(states)@[list@[k] as int],
                target,
            ),
        forall|i: int|
            0 <= i < old(states)@.len() && !list@.contains(i as usize) ==> final(states)@[i] == old(
                states,
            )@[i],
{
    let mut k: usize = 0;
    while k < list.len()
        invariant
            k <= list@.len(),
            states@.len() == old(states)@.len(),
            forall|j: int| 0 <= j < list@.len() ==> b_open(old(states)@, #[trigger] list@[j] as int),
            list@.no_duplicates(),
            forall|j: int|
                0 <= j < k ==> states@[#[trigger] list@[j] as int] == close(
                    old(states)@[list@[j] as int],
                    target,
                ),
            forall|i: int|
                0 <= i < old(states)@.len() && !list@.take(k as int).contains(i as usize)
                    ==> states@[i] == old(states)@[i],
        decreases list@.len() - k,
    {
        let id = list[k];
        proof {
            assert(b_open(old(states)@, id as int));
            assert(!list@.take(k as int).contains(id)) by {
                if list@.take(k as int).contains(id) {
                    let j = choose|j: int| 0 <= j < k && list@.take(k as int)[j] == id;
                    assert(list@[j] == list@[k as int]);
                }
            }
        }
        let nw = match states[id] {
            BState::Lit(c, _) => BState::Lit(c, Some(target)),
            BState::Split(a, _) => BState::Split(a, Some(target)),
        };
        states[id] = nw;
        k = k + 1;
        proof {
            assert forall|i: int|
                0 <= i < old(states)@.len() && !list@.take(k as int).contains(i as usize)
                    implies states@[i] == old(states)@[i] by {
                assert(!list@.take(k as int - 1).contains(i as usize)) by {
                    if list@.take(k as int - 1).contains(i as usize) {
                        lemma_take_contains(list@, k as int - 1, k as int, i as usize);
                    }
                }
                assert(i != id as int) by {
                    assert(list@.take(k as int)[k as int - 1] == id);
                }
            }
            assert forall|j: int|
                0 <= j < k implies states@[#[trigger] list@[j] as int] == close(
                old(states)@[list@[j] as int],
                target,
            ) by {
                if j < k - 1 {
                    assert(list@[j] != list@[k - 1 as int]);
                }
            }
        }
    }
    proof {
        assert(list@.take(list@.len() as int) =~= list@);
    }
}

/// After patching the slots of `l1` the open slots left are exactly
/// `keep = d0 + l2`, where `(d0 + l1) + l2` accounted for all open slots.
proof fn lemma_after_patch(
    pre: Seq<BState>,
    post: Seq<BState>,
    d0: Seq<usize>,
    l1: Seq<usize>,
    l2: Seq<usize>,
    target: usize,
)
    requires
        post.len() == pre.len(),
        pre.len() <= usize::MAX,
        slots_ok(pre, (d0 + l1) + l2),
        forall|k: int|
            0 <= k < l1.len() ==> post[#[trigger] l1[k] as int] == close(pre[l1[k] as int], target),
        forall|i: int| 0 <= i < pre.len() && !l1.contains(i as usize) ==> post[i] == pre[i],
    ensures
        slots_ok(post, d0 + l2),
{
    let all = (d0 + l1) + l2;
    let keep = d0 + l2;
    assert forall|q1: int, q2: int| 0 <= q1 < q2 < keep.len() implies keep[q1] != keep[q2] by {
        let m1 = if q1 < d0.len() {
            q1
        } else {
            d0.len() + l1.len() + (q1 - d0.len())
        };
        let m2 = if q2 < d0.len() {
            q2
        } else {
            d0.len() + l1.len() + (q2 - d0.len())
        };
        assert(all[m1] == keep[q1]);
        assert(all[m2] == keep[q2]);
    }
    assert forall|q: int| 0 <= q < keep.len() implies b_open(post, #[trigger] keep[q] as int) by {
        let m = if q < d0.len() {
            q
        } else {
            d0.len() + l1.len() + (q - d0.len())
        };
        assert(all[m] == keep[q]);
        assert(b_open(pre, keep[q] as int));
        assert(!l1.contains(keep[q])) by {
            if l1.contains(keep[q]) {
                let k = choose|k: int| 0 <= k < l1.len() && l1[k] == keep[q];
                assert(all[d0.len() + k] == keep[q]);
                assert(m != d0.len() + k);
            }
        }
    }
    assert forall|i: int|
        0 <= i < post.len() && slot_open(#[trigger] post[i]) implies keep.contains(i as usize) by {
        if l1.contains(i as usize) {
            let k = choose|k: int| 0 <= k < l1.len() && l1[k] == i as usize;
            assert(l1[k] as int == i);
            assert(post[l1[k] as int] == close(pre[l1[k] as int], target));
            assert(!slot_open(close(pre[i], target)));
        } else {
            assert(post[i] == pre[i]);
            assert(all.contains(i as usize));
            let m = choose|m: int| 0 <= m < all.len() && all[m] == i as usize;
            if m < d0.len() {
                assert(keep[m] == all[m]);
            } else if m < d0.len() + l1.len() {
                assert(l1[m - d0.len()] == i as usize);
            } else {
                assert(keep[d0.len() + (m - d0.len() - l1.len())] == all[m]);
            }
        }
    }
}

/// The converted form of a fully patched builder state.
pub open spec fn conv(st: BState) -> NState {
    match st {
        BState::Lit(c, o) => NState::Literal(c, o.unwrap()),
        BState::Split(a, o) => NState::Split(a, o.unwrap()),
    }
}

/// A sequence whose prefix underflows the stack machine is not balanced.
proof fn lemma_eval_none(ts: Seq<Token>, i: int)
    requires
        0 < i <= ts.len(),
        eval_from(ts.take(i), 0) is None,
    ensures
        !postfix_valid(ts),
{
    lemma_eval_app(ts.take(i), ts.skip(i), 0);
    assert(ts.take(i) + ts.skip(i) =~= ts);
}

/// Evaluating a concatenation evaluates the parts in order.
proof fn lemma_eval_app(a: Seq<Token>, b: Seq<Token>, d: nat)
    ensures
        eval_from(a + b, d) == match eval_from(a, d) {
            None => None::<nat>,
            Some(m) => eval_from(b, m),
        },
    decreases a.len(),
{
    if a.len() == 0 {
        assert(a + b =~= b);
    } else {
        assert((a + b)[0] == a[0]);
        match tok_step(d, a[0]) {
            None => {}
            Some(d2) => {
                assert((a + b).drop_first() =~= a.drop_first() + b);
                lemma_eval_app(a.drop_first(), b, d2);
            }
        }
    }
}

/// Build an NFA from a postfix token sequence by Thompson construction.
///
/// Succeeds exactly on balanced sequences: those a single-pass stack machine
/// evaluates to one fragment, and the empty sequence, which yields the
/// automaton accepting only the empty string. The result is exactly the
/// automaton the construction denotes (`thompson`), and in particular
/// well-formed: every transition stays inside the arena and the accept id
/// names the `Match` state. An unbalanced sequence signals a defect in the
/// pattern compiler and is reported as `InternalInvariantViolation`, never
/// silently repaired.
pub fn post2nfa(tokens: &Vec<Token>) -> (r: Result<Nfa, CompileError>)
    ensures
        match r {
            Ok(n) => postfix_valid(tokens@) && wf_nfa(&n) && thompson(tokens@) == Some(
                (n.states@, n.start, n.accept),
            ),
            Err(e) => !postfix_valid(tokens@) && e == CompileError::InternalInvariantViolation,
        },
{
    if tokens.len() == 0 {
        let mut states: Vec<NState> = Vec::new();
        states.push(NState::Match);
        proof {
            assert(states@ =~= seq![NState::Match]);
        }
        return Ok(Nfa { states, start: 0, accept: 0 });
    }
    let ghost ts = tokens@;
    let mut states: Vec<BState> = Vec::new();
    let mut stack: Vec<Frag> = Vec::new();
    let mut j: usize = 0;
    proof {
        assert(ts.take(0) =~= Seq::<Token>::empty());
        assert(frags_view(stack@) =~= Seq::<FragV>::empty());
        assert(BuildState { states: states@, stack: frags_view(stack@) } == init_build());
    }
    while j < tokens.len()
        invariant
            j <= ts.len(),
            ts == tokens@,
            ts.len() > 0,
            inv(states@, stack@),
            eval_from(ts.take(j as int), 0) == Some(stack@.len() as nat),
            thompson_run(ts.take(j as int), init_build()) == Some(
                BuildState { states: states@, stack: frags_view(stack@) },
            ),
        decreases ts.len() - j,
    {
        let ghost pre_states = states@;
        let ghost pre_stack = stack@;
        let t = tokens[j];
        let ghost pre_build = BuildState { states: states@, stack: frags_view(stack@) };
        proof {
            lemma_eval_push(ts.take(j as int), t, 0);
            assert(ts.take(j as int).push(t) =~= ts.take(j as int + 1));
            lemma_thompson_run_app(ts.take(j as int), seq![t], init_build());
            assert(ts.take(j as int) + seq![t] =~= ts.take(j as int + 1));
            assert(seq![t].drop_first() =~= Seq::<Token>::empty());
            reveal_with_fuel(thompson_run, 3);
            vstd::std_specs::vec::axiom_spec_len(&states);
        }
        match t {
            Token::Literal(c) => {
                let id = states.len();
                states.push(BState::Lit(c, None));
                let mut dangling: Vec<usize> = Vec::new();
                dangling.push(id);
                let f = Frag { start: id, dangling };
                proof {
                    lemma_dangles_push(pre_stack, f);
                    let d0 = dangles(pre_stack);
                    let dn = dangles(pre_stack.push(f));
                    assert(dn =~= d0.push(id));
                    assert forall|q1: int, q2: int| 0 <= q1 < q2 < dn.len() implies dn[q1]
                        != dn[q2] by {
                        if q2 == d0.len() {
                            assert(b_open(pre_states, d0[q1] as int));
                        }
                    }
                    assert forall|q: int| 0 <= q < dn.len() implies b_open(
                        states@,
                        #[trigger] dn[q] as int,
                    ) by {
                        if q < d0.len() {
                            assert(b_open(pre_states, d0[q] as int));
                        }
                    }
                    assert forall|i: int|
                        0 <= i < states@.len() && slot_open(#[trigger] states@[i])
                            implies dn.contains(i as usize) by {
                        if i < id {
                            assert(d0.contains(i as usize));
                            let q = choose|q: int| 0 <= q < d0.len() && d0[q] == i as usize;
                            assert(dn[q] == i as usize);
                        } else {
                            assert(dn[d0.len() as int] == id);
                        }
                    }
                    assert(f.dangling@ =~= seq![id]);
                }
                let ghost fv = FragV { start: f.start, dangling: f.dangling@ };
                stack.push(f);
                proof {
                    assert(frags_view(stack@) =~= pre_build.stack.push(fv));
                    assert(thompson_step(pre_build, t) == Some(
                        BuildState { states: states@, stack: frags_view(stack@) },
                    ));
                }
            }
            Token::Star => {
                if stack.len() == 0 {
                    proof {
                        lemma_eval_none(ts, j as int + 1);
                    }
                    return Err(CompileError::InternalInvariantViolation);
                }
                let e = stack.pop().unwrap();
                let ghost stack1 = pre_stack.drop_last();
                proof {
                    assert(dangles(pre_stack) == dangles(stack1) + e.dangling@);
                    assert(stack1 =~= stack@);
                }
                let id = states.len();
                states.push(BState::Split(e.start, None));
                let ghost mid_states = states@;
                proof {
                    // the new split's slot is open, and it is fresh
                    let d0 = dangles(stack1);
                    let all = (d0 + e.dangling@) + seq![id];
                    assert forall|q1: int, q2: int| 0 <= q1 < q2 < all.len() implies all[q1]
                        != all[q2] by {
                        if q2 == all.len() - 1 {
                            assert((d0 + e.dangling@)[q1] == all[q1]);
                            assert(b_open(pre_states, all[q1] as int));
                        } else {
                            assert((d0 + e.dangling@)[q1] == all[q1]);
                            assert((d0 + e.dangling@)[q2] == all[q2]);
                        }
                    }
                    assert forall|q: int| 0 <= q < all.len() implies b_open(
                        mid_states,
                        #[trigger] all[q] as int,
                    ) by {
                        if q < all.len() - 1 {
                            assert((d0 + e.dangling@)[q] == all[q]);
                            assert(b_open(pre_states, all[q] as int));
                        } else {
                            assert(all[q] == id);
                        }
                    }
                    assert forall|i: int|
                        0 <= i < mid_states.len() && slot_open(#[trigger] mid_states[i])
                            implies all.contains(i as usize) by {
                        if i < id {
                            assert((d0 + e.dangling@).contains(i as usize));
                            let q = choose|q: int|
                                0 <= q < (d0 + e.dangling@).len() && (d0 + e.dangling@)[q]
                                    == i as usize;
                            assert(all[q] == i as usize);
                        } else {
                            assert(all[all.len() - 1] == id);
                        }
                    }
                    assert(slots_ok(mid_states, all));
                    assert(forall|k: int|
                        0 <= k < e.dangling@.len() ==> b_open(
                            mid_states,
                            #[trigger] e.dangling@[k] as int,
                        )) by {
                        assert(forall|k: int|
                            0 <= k < e.dangling@.len()
                                ==> ((dangles(stack1) + e.dangling@) + seq![id])[dangles(
                                stack1,
                            ).len() + k] == e.dangling@[k]);
                    }
                    assert(e.dangling@.no_duplicates()) by {
                        assert forall|q1: int, q2: int|
                            0 <= q1 < q2 < e.dangling@.len() implies e.dangling@[q1]
                            != e.dangling@[q2] by {
                            assert(all[d0.len() + q1] == e.dangling@[q1]);
                            assert(all[d0.len() + q2] == e.dangling@[q2]);
                        }
                    }
                }
                patch(&mut states, &e.dangling, id);
                let mut dangling: Vec<usize> = Vec::new();
                dangling.push(id);
                let f = Frag { start: id, dangling };
                proof {
                    vstd::std_specs::vec::axiom_spec_len(&states);
                    lemma_after_patch(
                        mid_states,
                        states@,
                        dangles(stack1),
                        e.dangling@,
                        seq![id],
                        id,
                    );
                    lemma_dangles_push(stack1, f);
                    assert(dangles(stack1.push(f)) =~= dangles(stack1) + seq![id]);
                    lemma_patch_matches(mid_states, states@, e.dangling@, id);
                    assert(f.dangling@ =~= seq![id]);
                    assert(pre_build.stack.last() == FragV {
                        start: e.start,
                        dangling: e.dangling@,
                    });
                }
                let ghost fv = FragV { start: f.start, dangling: f.dangling@ };
                stack.push(f);
                proof {
                    assert(frags_view(stack@) =~= pre_build.stack.drop_last().push(fv));
                    assert(thompson_step(pre_build, t) == Some(
                        BuildState { states: states@, stack: frags_view(stack@) },
                    ));
                }
            }
            Token::Concat => {
                if stack.len() < 2 {
                    proof {
                        lemma_eval_none(ts, j as int + 1);
                    }
                    return Err(CompileError::InternalInvariantViolation);
                }
                let e2 = stack.pop().unwrap();
                let e1 = stack.pop().unwrap();
                let ghost stack2 = pre_stack.drop_last().drop_last();
                proof {
                    assert(dangles(pre_stack) == dangles(pre_stack.drop_last()) + e2.dangling@);
                    assert(dangles(pre_stack.drop_last()) == dangles(stack2) + e1.dangling@);
                    assert(stack2 =~= stack@);
                    assert(dangles(pre_stack) =~= (dangles(stack2) + e1.dangling@) + e2.dangling@);
                    assert(forall|k: int|
                        0 <= k < e1.dangling@.len() ==> b_open(
                            pre_states,
                            #[trigger] e1.dangling@[k] as int,
                        )) by {
                        assert(forall|k: int|
                            0 <= k < e1.dangling@.len()
                                ==> ((dangles(stack2) + e1.dangling@) + e2.dangling@)[dangles(
                                stack2,
                            ).len() + k] == e1.dangling@[k]);
                    }
                    assert(e1.dangling@.no_duplicates()) by {
                        let all = (dangles(stack2) + e1.dangling@) + e2.dangling@;
                        assert forall|q1: int, q2: int|
                            0 <= q1 < q2 < e1.dangling@.len() implies e1.dangling@[q1]
                            != e1.dangling@[q2] by {
                            assert(all[dangles(stack2).len() + q1] == e1.dangling@[q1]);
                            assert(all[dangles(stack2).len() + q2] == e1.dangling@[q2]);
                        }
                    }
                }
                let ghost e2_start = e2.start;
                patch(&mut states, &e1.dangling, e2.start);
                let f = Frag { start: e1.start, dangling: e2.dangling };
                proof {
                    vstd::std_specs::vec::axiom_spec_len(&states);
                    lemma_after_patch(
                        pre_states,
                        states@,
                        dangles(stack2),
                        e1.dangling@,
                        f.dangling@,
                        e2.start,
                    );
                    lemma_dangles_push(stack2, f);
                    assert(pre_stack[pre_stack.len() - 2] == e1);
                    assert(pre_stack[pre_stack.len() - 1] == e2);
                    lemma_patch_matches(pre_states, states@, e1.dangling@, e2_start);
                    assert(pre_build.stack.last() == FragV {
                        start: e2_start,
                        dangling: f.dangling@,
                    });
                    assert(pre_build.stack.drop_last().last() == FragV {
                        start: e1.start,
                        dangling: e1.dangling@,
                    });
                }
                let ghost fv = FragV { start: f.start, dangling: f.dangling@ };
                stack.push(f);
                proof {
                    assert(frags_view(stack@) =~= pre_build.stack.drop_last().drop_last().push(fv));
                    assert(thompson_step(pre_build, t) == Some(
                        BuildState { states: states@, stack: frags_view(stack@) },
                    ));
                }
            }
            Token::Alt => {
                if stack.len() < 2 {
                    proof {
                        lemma_eval_none(ts, j as int + 1);
                    }
                    return Err(CompileError::InternalInvariantViolation);
                }
                let e2 = stack.pop().unwrap();
                let e1 = stack.pop().unwrap();
                let ghost stack2 = pre_stack.drop_last().drop_last();
                proof {
                    assert(dangles(pre_stack) == dangles(pre_stack.drop_last()) + e2.dangling@);
                    assert(dangles(pre_stack.drop_last()) == dangles(stack2) + e1.dangling@);
                    assert(stack2 =~= stack@);
                    assert(pre_stack[pre_stack.len() - 2] == e1);
                    assert(pre_stack[pre_stack.len() - 1] == e2);
                }
                let ghost e1_start = e1.start;
                let ghost e2_start = e2.start;
                let ghost e1_dangling = e1.dangling@;
                let ghost e2_dangling = e2.dangling@;
                let id = states.len();
                states.push(BState::Split(e1.start, Some(e2.start)));
                let mut dangling = e1.dangling;
                let mut d2 = e2.dangling;
                dangling.append(&mut d2);
                let f = Frag { start: id, dangling };
                proof {
                    let d0 = dangles(stack2);
                    let dn = d0 + f.dangling@;
                    assert(dn =~= (d0 + e1.dangling@) + e2.dangling@);
                    assert(dn =~= dangles(pre_stack));
                    assert forall|q: int| 0 <= q < dn.len() implies b_open(
                        states@,
                        #[trigger] dn[q] as int,
                    ) by {
                        assert(b_open(pre_states, dn[q] as int));
                    }
                    assert forall|i: int|
                        0 <= i < states@.len() && slot_open(#[trigger] states@[i])
                            implies dn.contains(i as usize) by {
                        assert(i < id);
                        assert(dangles(pre_stack).contains(i as usize));
                    }
                    lemma_dangles_push(stack2, f);
                    assert(pre_build.stack.last() == FragV {
                        start: e2_start,
                        dangling: e2_dangling,
                    });
                    assert(pre_build.stack.drop_last().last() == FragV {
                        start: e1_start,
                        dangling: e1_dangling,
                    });
                    assert(f.dangling@ == e1_dangling + e2_dangling);
                }
                let ghost fv = FragV { start: f.start, dangling: f.dangling@ };
                stack.push(f);
                proof {
                    assert(frags_view(stack@) =~= pre_build.stack.drop_last().drop_last().push(fv));
                    assert(thompson_step(pre_build, t) == Some(
                        BuildState { states: states@, stack: frags_view(stack@) },
                    ));
                }
            }
        }
        j = j + 1;
    }
    proof {
        assert(ts.take(ts.len() as int) =~= ts);
    }
    if stack.len() != 1 {
        return Err(CompileError::InternalInvariantViolation);
    }
    let ghost spre = stack@;
    let f = stack.pop().unwrap();
    let ghost pre_states = states@;
    let m = states.len();
    proof {
        assert(spre.drop_last() =~= stack@);
        assert(dangles(spre) == dangles(stack@) + f.dangling@);
        assert(dangles(stack@) =~= Seq::<usize>::empty());
        assert(dangles(spre) =~= f.dangling@);
        assert((Seq::<usize>::empty() + f.dangling@) + Seq::<usize>::empty() =~= f.dangling@);
        assert(spre[0] == f);
    }
    patch(&mut states, &f.dangling, m);
    proof {
        vstd::std_specs::vec::axiom_spec_len(&states);
        lemma_after_patch(
            pre_states,
            states@,
            Seq::<usize>::empty(),
            f.dangling@,
            Seq::<usize>::empty(),
            m,
        );
        assert forall|q: int| 0 <= q < states@.len() implies !slot_open(#[trigger] states@[q]) by {
            if slot_open(states@[q]) {
                assert((Seq::<usize>::empty() + Seq::<usize>::empty()).contains(q as usize));
            }
        }
        lemma_patch_matches(pre_states, states@, f.dangling@, m);
    }
    let mut ns: Vec<NState> = Vec::new();
    let mut i: usize = 0;
    while i < m
        invariant
            i <= states@.len(),
            m == states@.len(),
            ns@.len() == i,
            forall|q: int| 0 <= q < states@.len() ==> !slot_open(#[trigger] states@[q]),
            b_wf(states@, states@.len() + 1),
            forall|q: int| 0 <= q < i ==> ns@[q] == conv(states@[q]),
        decreases states@.len() - i,
    {
        let nw = match states[i] {
            BState::Lit(c, Some(o)) => NState::Literal(c, o),
            BState::Split(a, Some(b)) => NState::Split(a, b),
            _ => {
                proof {
                    assert(!slot_open(states@[i as int]));
                }
                unreached()
            }
        };
        ns.push(nw);
        i = i + 1;
    }
    ns.push(NState::Match);
    proof {
        let b = BuildState { states: pre_states, stack: frags_view(spre) };
        assert(thompson_run(ts, init_build()) == Some(b));
        assert(b.stack.len() == 1);
        assert(b.stack[0] == FragV { start: f.start, dangling: f.dangling@ });
        assert(pre_states.len() as usize == m);
        assert(ns@ =~= patch_spec(pre_states, f.dangling@, m).map_values(
            |st: BState| conv(st),
        ).push(NState::Match));
        assert(thompson(ts) == Some((ns@, f.start, m)));
    }
    let n = Nfa { states: ns, start: f.start, accept: m };
    Ok(n)
}

} // verus!
