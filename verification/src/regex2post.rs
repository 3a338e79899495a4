//! The pattern compiler: infix pattern -> postfix token sequence.
//!
//! Precedence is `*` over concatenation over `|`; concatenation is implicit in
//! the infix form and becomes an explicit token in the postfix form. The
//! algorithm keeps, for each open parenthesis, the counts of pending atoms and
//! pending alternations, so operators are flushed to the output only when
//! their enclosing group closes. A structurally invalid pattern (unbalanced
//! parentheses, an operator missing an operand) is rejected as
//! `CompileError::MalformedPattern`.

use vstd::prelude::*;
use vstd::string::*;
use crate::CompileError;

verus! {

/// One token of the postfix form: a literal character or an operator marker.
#[derive(Clone, Copy, Debug, PartialEq, Eq, Structural)]
pub enum Token {
    Literal(char),
    Concat,
    Alt,
    Star,
}

/// The compiler's state after consuming a prefix of the pattern: the tokens
/// already emitted, the saved (pending-alternation, pending-atom) counts of
/// each enclosing group, and the counts of the current group.
pub ghost struct PostState {
    pub out: Seq<Token>,
    pub groups: Seq<(nat, nat)>,
    pub nalt: nat,
    pub natom: nat,
}

/// Emit the concatenation operators owed to `natom` pending atoms: `natom - 1`
/// of them (none when fewer than two atoms are pending).
pub open spec fn concat_flush(out: Seq<Token>, natom: nat) -> Seq<Token>
    decreases natom,
{
    if natom <= 1 {
        out
    } else {
        concat_flush(out.push(Token::Concat), (natom - 1) as nat)
    }
}

/// Emit one alternation operator for each pending alternation.
pub open spec fn alt_flush(out: Seq<Token>, nalt: nat) -> Seq<Token>
    decreases nalt,
{
    if nalt == 0 {
        out
    } else {
        alt_flush(out.push(Token::Alt), (nalt - 1) as nat)
    }
}

/// One step of the compiler: consume one pattern character. `None` reports a
/// malformed pattern.
pub open spec fn post_step(st: PostState, c: char) -> Option<PostState> {
    if c == '(' {
        let out = if st.natom > 1 { st.out.push(Token::Concat) } else { st.out };
        let natom = if st.natom > 1 { (st.natom - 1) as nat } else { st.natom };
        Some(PostState { out, groups: st.groups.push((st.nalt, natom)), nalt: 0, natom: 0 })
    } else if c == '|' {
        if st.natom == 0 {
            None
        } else {
            Some(PostState {
                out: concat_flush(st.out, st.natom),
                groups: st.groups,
                nalt: st.nalt + 1,
                natom: 0,
            })
        }
    } else if c == ')' {
        if st.groups.len() == 0 || st.natom == 0 {
            None
        } else {
            let out = alt_flush(concat_flush(st.out, st.natom), st.nalt);
            let (palt, patom) = st.groups.last();
            Some(PostState {
                out,
                groups: st.groups.drop_last(),
                nalt: palt,
                natom: patom + 1,
            })
        }
    } else if c == '*' {
        if st.natom == 0 {
            None
        } else {
            Some(PostState { out: st.out.push(Token::Star), ..st })
        }
    } else {
        let out = if st.natom > 1 { st.out.push(Token::Concat) } else { st.out };
        let natom = if st.natom > 1 { st.natom } else { st.natom + 1 };
        Some(PostState { out: out.push(Token::Literal(c)), groups: st.groups, nalt: st.nalt, natom })
    }
}

/// Run the compiler over a character sequence from a given state.
pub open spec fn post_run(s: Seq<char>, st: PostState) -> Option<PostState>
    decreases s.len(),
{
    if s.len() == 0 {
        Some(st)
    } else {
        match post_step(st, s[0]) {
            None => None,
            Some(st2) => post_run(s.drop_first(), st2),
        }
    }
}

/// The compiler's initial state: nothing emitted, no groups open.
pub open spec fn init_state() -> PostState {
    PostState { out: Seq::empty(), groups: Seq::empty(), nalt: 0, natom: 0 }
}

/// The postfix form of a pattern, or `None` when the pattern is malformed: a
/// group left open, or a trailing alternation with no right operand.
pub open spec fn spec_regex2post(s: Seq<char>) -> Option<Seq<Token>> {
    match post_run(s, init_state()) {
        None => None,
        Some(st) => if st.groups.len() > 0 {
            None
        } else if st.natom == 0 {
            if st.nalt > 0 {
                None
            } else {
                Some(st.out)
            }
        } else {
            Some(alt_flush(concat_flush(st.out, st.natom), st.nalt))
        },
    }
}

/// Once a prefix is malformed, the whole pattern is.
proof fn lemma_run_app(a: Seq<char>, b: Seq<char>, st: PostState)
    ensures
        post_run(a + b, st) == match post_run(a, st) {
            None => None::<PostState>,
            Some(m) => post_run(b, m),
        },
    decreases a.len(),
{
    if a.len() == 0 {
        assert(a + b =~= b);
    } else {
        assert((a + b)[0] == a[0]);
        match post_step(st, a[0]) {
            None => {}
            Some(st2) => {
                assert((a + b).drop_first() =~= a.drop_first() + b);
                lemma_run_app(a.drop_first(), b, st2);
            }
        }
    }
}

/// A pattern whose prefix is already malformed is malformed.
proof fn lemma_prefix_none(s: Seq<char>, i: int)
    requires
        0 <= i <= s.len(),
        post_run(s.take(i), init_state()) is None,
    ensures
        post_run(s, init_state()) is None,
{
    lemma_run_app(s.take(i), s.skip(i), init_state());
    assert(s.take(i) + s.skip(i) =~= s);
}

/// Compile an infix pattern to its postfix token sequence.
///
/// Returns exactly what the one-pass compiler state machine denotes: the token
/// sequence of `spec_regex2post` on success, and `MalformedPattern` precisely
/// on the patterns that `spec_regex2post` rejects. The empty pattern is valid
/// and yields the empty sequence.
pub fn regex2post(pattern: &str) -> (r: Result<Vec<Token>, CompileError>)
    ensures
        match r {
            Ok(tokens) => spec_regex2post(pattern@) == Some(tokens@),
            Err(e) => spec_regex2post(pattern@) is None && e == CompileError::MalformedPattern,
        },
{
    let n = pattern.unicode_len();
    let mut out: Vec<Token> = Vec::new();
    let mut groups: Vec<(usize, usize)> = Vec::new();
    let mut nalt: usize = 0;
    let mut natom: usize = 0;
    let mut i: usize = 0;
    proof {
        assert(pattern@.take(0) =~= Seq::<char>::empty());
        assert(groups@.map_values(|g: (usize, usize)| (g.0 as nat, g.1 as nat)) =~= Seq::<(
            nat,
            nat,
        )>::empty());
    }
    while i < n
        invariant
            i <= n,
            n == pattern@.len(),
            post_run(pattern@.take(i as int), init_state()) == Some(
                PostState {
                    out: out@,
                    groups: groups@.map_values(|g: (usize, usize)| (g.0 as nat, g.1 as nat)),
                    nalt: nalt as nat,
                    natom: natom as nat,
                },
            ),
            natom <= 2,
            nalt <= i,
            groups@.len() <= i,
            forall|k: int|
                0 <= k < groups@.len() ==> (#[trigger] groups@[k]).0 <= i && groups@[k].1 <= 1,
        decreases n - i,
    {
        let ghost pre = PostState {
            out: out@,
            groups: groups@.map_values(|g: (usize, usize)| (g.0 as nat, g.1 as nat)),
            nalt: nalt as nat,
            natom: natom as nat,
        };
        let c = pattern.get_char(i);
        proof {
            lemma_run_app(pattern@.take(i as int), seq![c], init_state());
            assert(pattern@.take(i as int) + seq![c] =~= pattern@.take(i + 1));
            assert(seq![c].drop_first() =~= Seq::<char>::empty());
            reveal_with_fuel(post_run, 3);
            reveal_with_fuel(concat_flush, 3);
        }
        if c == '(' {
            if natom > 1 {
                out.push(Token::Concat);
                natom = natom - 1;
            }
            groups.push((nalt, natom));
            nalt = 0;
            natom = 0;
            proof {
                let st2 = post_step(pre, c).unwrap();
                assert(groups@.map_values(|g: (usize, usize)| (g.0 as nat, g.1 as nat)) =~= st2
                    .groups);
            }
        } else if c == '|' {
            if natom == 0 {
                proof {
                    lemma_prefix_none(pattern@, i + 1);
                }
                return Err(CompileError::MalformedPattern);
            }
            if natom == 2 {
                out.push(Token::Concat);
            }
            natom = 0;
            nalt = nalt + 1;
            proof {
                assert(out@ == concat_flush(pre.out, pre.natom));
            }
        } else if c == ')' {
            if groups.len() == 0 || natom == 0 {
                proof {
                    assert(pre.groups.len() == groups@.len());
                    lemma_prefix_none(pattern@, i + 1);
                }
                return Err(CompileError::MalformedPattern);
            }
            if natom == 2 {
                out.push(Token::Concat);
            }
            assert(out@ == concat_flush(pre.out, pre.natom));
            let ghost flushed = out@;
            let mut k: usize = 0;
            while k < nalt
                invariant
                    k <= nalt,
                    out@ == alt_flush(flushed, k as nat),
                decreases nalt - k,
            {
                proof {
                    lemma_alt_flush_push(flushed, k as nat);
                }
                out.push(Token::Alt);
                k = k + 1;
            }
            assert(out@ == alt_flush(concat_flush(pre.out, pre.natom), pre.nalt));
            let g = groups.pop().unwrap();
            nalt = g.0;
            natom = g.1 + 1;
            proof {
                let st2 = post_step(pre, c).unwrap();
                assert(groups@.map_values(|g: (usize, usize)| (g.0 as nat, g.1 as nat)) =~= st2
                    .groups);
                assert((nalt as nat, (natom - 1) as nat) == pre.groups.last());
            }
        } else if c == '*' {
            if natom == 0 {
                proof {
                    lemma_prefix_none(pattern@, i + 1);
                }
                return Err(CompileError::MalformedPattern);
            }
            out.push(Token::Star);
        } else {
            if natom > 1 {
                out.push(Token::Concat);
                natom = natom - 1;
            }
            out.push(Token::Literal(c));
            natom = natom + 1;
        }
        i = i + 1;
    }
    proof {
        assert(pattern@.take(n as int) =~= pattern@);
    }
    let ghost fin = PostState {
        out: out@,
        groups: groups@.map_values(|g: (usize, usize)| (g.0 as nat, g.1 as nat)),
        nalt: nalt as nat,
        natom: natom as nat,
    };
    if groups.len() > 0 {
        proof {
            assert(fin.groups.len() == groups@.len());
        }
        return Err(CompileError::MalformedPattern);
    }
    proof {
        assert(fin.groups.len() == groups@.len());
    }
    if natom == 0 {
        if nalt > 0 {
            return Err(CompileError::MalformedPattern);
        }
        return Ok(out);
    }
    if natom == 2 {
        out.push(Token::Concat);
    }
    proof {
        reveal_with_fuel(concat_flush, 3);
        assert(out@ == concat_flush(fin.out, fin.natom));
    }
    let ghost flushed = out@;
    let mut k: usize = 0;
    while k < nalt
        invariant
            k <= nalt,
            out@ == alt_flush(flushed, k as nat),
        decreases nalt - k,
    {
        proof {
            lemma_alt_flush_push(flushed, k as nat);
        }
        out.push(Token::Alt);
        k = k + 1;
    }
    assert(out@ == alt_flush(concat_flush(fin.out, fin.natom), fin.nalt));
    Ok(out)
}

/// The effect of one postfix token on the size of an evaluation stack:
/// a literal pushes a fragment, star rewrites the top fragment, and the binary
/// operators combine the two top fragments. `None` reports stack underflow.
pub open spec fn tok_step(d: nat, t: Token) -> Option<nat> {
    match t {
        Token::Literal(_) => Some((d + 1) as nat),
        Token::Star => if d >= 1 {
            Some(d)
        } else {
            None
        },
        Token::Concat => if d >= 2 {
            Some((d - 1) as nat)
        } else {
            None
        },
        Token::Alt => if d >= 2 {
            Some((d - 1) as nat)
        } else {
            None
        },
    }
}

/// Run a token sequence through a single-pass stack machine that starts with
/// `d` fragments: the number of fragments left, or `None` on underflow.
pub open spec fn eval_from(ts: Seq<Token>, d: nat) -> Option<nat>
    decreases ts.len(),
{
    if ts.len() == 0 {
        Some(d)
    } else {
        match tok_step(d, ts[0]) {
            None => None,
            Some(d2) => eval_from(ts.drop_first(), d2),
        }
    }
}

/// A postfix sequence is balanced: evaluating it by a single-pass stack
/// machine never underflows and leaves exactly one fragment (or it is the
/// empty sequence, which denotes the empty pattern).
pub open spec fn postfix_valid(ts: Seq<Token>) -> bool {
    ts.len() == 0 || eval_from(ts, 0) == Some(1nat)
}

/// Appending one token evaluates the prefix first, then applies the token.
pub proof fn lemma_eval_push(ts: Seq<Token>, t: Token, d: nat)
    ensures
        eval_from(ts.push(t), d) == match eval_from(ts, d) {
            None => None::<nat>,
            Some(m) => tok_step(m, t),
        },
    decreases ts.len(),
{
    reveal_with_fuel(eval_from, 3);
    if ts.len() == 0 {
        assert(ts.push(t).drop_first() =~= Seq::<Token>::empty());
    } else {
        assert(ts.push(t).drop_first() =~= ts.drop_first().push(t));
        match tok_step(d, ts[0]) {
            None => {}
            Some(d2) => {
                lemma_eval_push(ts.drop_first(), t, d2);
            }
        }
    }
}

/// Flushing pending concatenations turns `natom` fragments into one.
proof fn lemma_eval_concat_flush(out: Seq<Token>, natom: nat, d: nat)
    requires
        eval_from(out, 0) == Some(d),
        d >= natom,
        natom >= 1,
    ensures
        eval_from(concat_flush(out, natom), 0) == Some((d - (natom - 1)) as nat),
    decreases natom,
{
    if natom > 1 {
        lemma_eval_push(out, Token::Concat, 0);
        lemma_eval_concat_flush(out.push(Token::Concat), (natom - 1) as nat, (d - 1) as nat);
    }
}

/// Flushing pending alternations combines `nalt + 1` fragments into one.
proof fn lemma_eval_alt_flush(out: Seq<Token>, nalt: nat, d: nat)
    requires
        eval_from(out, 0) == Some(d),
        d >= nalt + 1,
    ensures
        eval_from(alt_flush(out, nalt), 0) == Some((d - nalt) as nat),
    decreases nalt,
{
    if nalt > 0 {
        lemma_eval_push(out, Token::Alt, 0);
        lemma_eval_alt_flush(out.push(Token::Alt), (nalt - 1) as nat, (d - 1) as nat);
    }
}

/// The fragments promised to the enclosing groups: each saved group holds its
/// pending alternations and pending atoms on the evaluation stack.
pub open spec fn group_weight(groups: Seq<(nat, nat)>) -> nat
    decreases groups.len(),
{
    if groups.len() == 0 {
        0
    } else {
        group_weight(groups.drop_last()) + groups.last().0 + groups.last().1
    }
}

/// The compiler's invariant: the emitted output evaluates without underflow to
/// exactly the number of fragments the state still accounts for.
pub open spec fn state_balanced(st: PostState) -> bool {
    eval_from(st.out, 0) == Some((st.natom + st.nalt + group_weight(st.groups)) as nat)
}

/// Each compiler step preserves the balance invariant.
proof fn lemma_step_balanced(st: PostState, c: char, st2: PostState)
    requires
        state_balanced(st),
        post_step(st, c) == Some(st2),
    ensures
        state_balanced(st2),
{
    let d = (st.natom + st.nalt + group_weight(st.groups)) as nat;
    if c == '(' {
        if st.natom > 1 {
            lemma_eval_push(st.out, Token::Concat, 0);
        }
        assert(st2.groups.drop_last() =~= st.groups);
    } else if c == '|' {
        lemma_eval_concat_flush(st.out, st.natom, d);
    } else if c == ')' {
        lemma_eval_concat_flush(st.out, st.natom, d);
        lemma_eval_alt_flush(concat_flush(st.out, st.natom), st.nalt, (d - (st.natom - 1)) as nat);
    } else if c == '*' {
        lemma_eval_push(st.out, Token::Star, 0);
    } else {
        let out1 = if st.natom > 1 {
            st.out.push(Token::Concat)
        } else {
            st.out
        };
        if st.natom > 1 {
            lemma_eval_push(st.out, Token::Concat, 0);
        }
        lemma_eval_push(out1, Token::Literal(c), 0);
    }
}

/// Running the compiler preserves the balance invariant.
proof fn lemma_run_balanced(s: Seq<char>, st: PostState, st2: PostState)
    requires
        state_balanced(st),
        post_run(s, st) == Some(st2),
    ensures
        state_balanced(st2),
    decreases s.len(),
{
    if s.len() > 0 {
        let mid = post_step(st, s[0]).unwrap();
        lemma_step_balanced(st, s[0], mid);
        lemma_run_balanced(s.drop_first(), mid, st2);
    }
}

/// A stack machine started on at least one fragment keeps at least one.
proof fn lemma_eval_pos(ts: Seq<Token>, d: nat)
    requires
        d >= 1,
        eval_from(ts, d) is Some,
    ensures
        eval_from(ts, d).unwrap() >= 1,
    decreases ts.len(),
{
    if ts.len() > 0 {
        match tok_step(d, ts[0]) {
            None => {}
            Some(d2) => {
                lemma_eval_pos(ts.drop_first(), d2);
            }
        }
    }
}

/// A run that starts and ends with an empty stack emitted nothing.
proof fn lemma_eval_zero_empty(ts: Seq<Token>)
    requires
        eval_from(ts, 0) == Some(0nat),
    ensures
        ts.len() == 0,
{
    if ts.len() > 0 {
        match tok_step(0, ts[0]) {
            None => {}
            Some(d2) => {
                lemma_eval_pos(ts.drop_first(), d2);
            }
        }
    }
}

/// Every token sequence the pattern compiler emits is balanced: it can be
/// evaluated by a single-pass stack machine ending with exactly one fragment,
/// or it is empty (for the empty pattern). Hence the NFA builder never reports
/// an internal invariant violation on the compiler's output.
pub proof fn lemma_regex2post_valid(s: Seq<char>, ts: Seq<Token>)
    requires
        spec_regex2post(s) == Some(ts),
    ensures
        postfix_valid(ts),
{
    let st = post_run(s, init_state()).unwrap();
    assert(state_balanced(init_state()));
    lemma_run_balanced(s, init_state(), st);
    let d = (st.natom + st.nalt + group_weight(st.groups)) as nat;
    if st.natom == 0 {
        assert(d == 0);
        lemma_eval_zero_empty(st.out);
    } else {
        lemma_eval_concat_flush(st.out, st.natom, d);
        lemma_eval_alt_flush(concat_flush(st.out, st.natom), st.nalt, (d - (st.natom - 1)) as nat);
    }
}

/// Flushing one more alternation appends one more operator.
proof fn lemma_alt_flush_push(out: Seq<Token>, n: nat)
    ensures
        alt_flush(out, n + 1) == alt_flush(out, n).push(Token::Alt),
    decreases n,
{
    reveal_with_fuel(alt_flush, 3);
    if n > 0 {
        lemma_alt_flush_push(out.push(Token::Alt), (n - 1) as nat);
    }
}

} // verus!
