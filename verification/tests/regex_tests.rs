use automata::compile;
use automata::dfa::DFA;
use automata::nfa2dfa::{closure, determinize, determinize_sets};
use automata::post2nfa::post2nfa;
use automata::regex2post::{regex2post, Token};
use automata::CompileError;

/// Walk the DFA's table from its start state; outside-alphabet characters and
/// missing transitions reject.
fn dfa_accepts(d: &DFA, s: &str) -> bool {
    let mut st = d.start;
    for c in s.chars() {
        let col = match d.accepts.iter().position(|&a| a == c) {
            Some(k) => k,
            None => return false,
        };
        match d.table[st][col] {
            Some(n) => st = n,
            None => return false,
        }
    }
    d.out.contains(&st)
}

/// All strings over `ab` of length at most `n`.
fn strings_up_to(alphabet: &[char], n: usize) -> Vec<String> {
    let mut acc = vec![String::new()];
    let mut layer = vec![String::new()];
    for _ in 0..n {
        let mut next = Vec::new();
        for s in &layer {
            for &c in alphabet {
                let mut t = s.clone();
                t.push(c);
                next.push(t);
            }
        }
        acc.extend(next.iter().cloned());
        layer = next;
    }
    acc
}

#[test]
fn postfix_concat() {
    let p = regex2post("ab").unwrap();
    assert_eq!(p, vec![Token::Literal('a'), Token::Literal('b'), Token::Concat]);
}

#[test]
fn postfix_alternation() {
    let p = regex2post("a|b").unwrap();
    assert_eq!(p, vec![Token::Literal('a'), Token::Literal('b'), Token::Alt]);
}

#[test]
fn postfix_star() {
    let p = regex2post("a*").unwrap();
    assert_eq!(p, vec![Token::Literal('a'), Token::Star]);
}

#[test]
fn postfix_empty_pattern() {
    assert_eq!(regex2post("").unwrap(), vec![]);
}

#[test]
fn postfix_group_precedence() {
    let p = regex2post("(a|b)c").unwrap();
    assert_eq!(
        p,
        vec![
            Token::Literal('a'),
            Token::Literal('b'),
            Token::Alt,
            Token::Literal('c'),
            Token::Concat
        ]
    );
}

#[test]
fn malformed_patterns_rejected() {
    for bad in ["a|", "|a", "(", ")", "*", "()", "(a", "a)", "(|a)"] {
        assert_eq!(regex2post(bad), Err(CompileError::MalformedPattern), "pattern {:?}", bad);
        assert!(compile(bad).is_err(), "pattern {:?}", bad);
    }
}

#[test]
fn empty_pattern_dfa() {
    // Empty pattern: the start state is accepting, there are no transitions,
    // only the empty string is accepted.
    let d = compile("").unwrap();
    assert!(d.accepts.is_empty());
    assert!(d.out.contains(&d.start));
    assert!(d.table[d.start].is_empty());
    assert!(dfa_accepts(&d, ""));
    assert!(!dfa_accepts(&d, "a"));
}

#[test]
fn single_literal_dfa() {
    // Pattern "a": exactly two reachable states; the start is non-accepting
    // with one transition on 'a' to an accepting state with no outgoing
    // transitions.
    let d = compile("a").unwrap();
    assert_eq!(d.table.len(), 2);
    assert_eq!(d.accepts, vec!['a']);
    assert!(!d.out.contains(&d.start));
    let next = d.table[d.start][0].unwrap();
    assert!(d.out.contains(&next));
    assert_eq!(d.table[next][0], None);
    assert!(dfa_accepts(&d, "a"));
    assert!(!dfa_accepts(&d, ""));
    assert!(!dfa_accepts(&d, "aa"));
    assert!(!dfa_accepts(&d, "b"));
}

#[test]
fn alternation_dfa() {
    let d = compile("a|b").unwrap();
    for good in ["a", "b"] {
        assert!(dfa_accepts(&d, good), "{:?}", good);
    }
    for bad in ["", "ab", "c"] {
        assert!(!dfa_accepts(&d, bad), "{:?}", bad);
    }
}

#[test]
fn star_dfa() {
    let d = compile("a*").unwrap();
    for good in ["", "a", "aaaa"] {
        assert!(dfa_accepts(&d, good), "{:?}", good);
    }
    for bad in ["b", "ab"] {
        assert!(!dfa_accepts(&d, bad), "{:?}", bad);
    }
}

fn in_ab_star(s: &[char]) -> bool {
    s.len() % 2 == 0 && s.chunks(2).all(|p| p == ['a', 'b'])
}

fn in_astar_or_bstar(s: &[char]) -> bool {
    s.iter().all(|&c| c == 'a') || s.iter().all(|&c| c == 'b')
}

fn in_b_then_astar(s: &[char]) -> bool {
    !s.is_empty() && s[0] == 'b' && s[1..].iter().all(|&c| c == 'a')
}

/// Reference evaluator for `(ab)*(a*|b*)(ba*)` by trying every split.
fn reference_big(s: &str) -> bool {
    let cs: Vec<char> = s.chars().collect();
    for i in 0..=cs.len() {
        for j in i..=cs.len() {
            if in_ab_star(&cs[..i]) && in_astar_or_bstar(&cs[i..j]) && in_b_then_astar(&cs[j..]) {
                return true;
            }
        }
    }
    false
}

#[test]
fn big_pattern_examples() {
    let d = compile("(ab)*(a*|b*)(ba*)").unwrap();
    for good in ["ba", "abba", "ababaaa"] {
        assert!(dfa_accepts(&d, good), "{:?}", good);
    }
}

#[test]
fn big_pattern_exhaustive() {
    // The DFA for `(ab)*(a*|b*)(ba*)` agrees with a reference evaluator on
    // every string of length at most 6 over {a, b}.
    let d = compile("(ab)*(a*|b*)(ba*)").unwrap();
    for s in strings_up_to(&['a', 'b'], 6) {
        assert_eq!(dfa_accepts(&d, &s), reference_big(&s), "string {:?}", s);
    }
}

#[test]
fn small_patterns_exhaustive() {
    // Each DFA accepts exactly the language of its pattern, checked by
    // enumeration up to length 5 over {a, b, c}.
    let cases: Vec<(&str, fn(&str) -> bool)> = vec![
        ("a", |s| s == "a"),
        ("ab", |s| s == "ab"),
        ("a|b", |s| s == "a" || s == "b"),
        ("a*", |s| s.chars().all(|c| c == 'a')),
        ("(a|b)*", |s| s.chars().all(|c| c == 'a' || c == 'b')),
        ("a(b|c)*", |s| {
            s.starts_with('a') && s[1..].chars().all(|c| c == 'b' || c == 'c')
        }),
    ];
    for (pat, reference) in cases {
        let d = compile(pat).unwrap();
        for s in strings_up_to(&['a', 'b', 'c'], 5) {
            assert_eq!(dfa_accepts(&d, &s), reference(&s), "pattern {:?} string {:?}", pat, s);
        }
    }
}

#[test]
fn closure_idempotent_concrete() {
    // Epsilon closure is idempotent on a concrete NFA.
    let tokens = regex2post("(ab)*(a*|b*)(ba*)").unwrap();
    let n = post2nfa(&tokens).unwrap();
    let seed = vec![n.start];
    let once = closure(&n, &seed);
    let twice = closure(&n, &once);
    assert_eq!(once, twice);
}

#[test]
fn determinize_deterministic() {
    // Re-running determinization on the same NFA yields the same DFA (the
    // identity renaming).
    let tokens = regex2post("(ab)*(a*|b*)(ba*)").unwrap();
    let n = post2nfa(&tokens).unwrap();
    let d1 = determinize(&n);
    let d2 = determinize(&n);
    assert_eq!(d1.accepts, d2.accepts);
    assert_eq!(d1.table, d2.table);
    assert_eq!(d1.start, d2.start);
    assert_eq!(d1.out, d2.out);
}

#[test]
fn state_sets_pairwise_distinct() {
    // No two DFA state ids stand for the same canonical NFA state set.
    let tokens = regex2post("(ab)*(a*|b*)(ba*)").unwrap();
    let n = post2nfa(&tokens).unwrap();
    let (d, sets) = determinize_sets(&n);
    assert_eq!(d.table.len(), sets.len());
    for s in &sets {
        assert!(!s.is_empty());
    }
    for i in 0..sets.len() {
        for j in i + 1..sets.len() {
            assert_ne!(sets[i], sets[j]);
        }
    }
}

#[test]
fn unbalanced_postfix_rejected() {
    // A postfix sequence that does not leave exactly one fragment is an
    // internal invariant violation.
    let r = post2nfa(&vec![Token::Literal('a'), Token::Literal('b')]);
    assert_eq!(r.err(), Some(CompileError::InternalInvariantViolation));
    let r2 = post2nfa(&vec![Token::Concat]);
    assert_eq!(r2.err(), Some(CompileError::InternalInvariantViolation));
    let r3 = post2nfa(&vec![Token::Star]);
    assert_eq!(r3.err(), Some(CompileError::InternalInvariantViolation));
}

#[test]
fn render_single_literal() {
    let d = compile("a").unwrap();
    assert_eq!(d.render(), "DFA  | a\n-> 0 | 1\n  *1 | /\n");
}

#[test]
fn render_empty_pattern() {
    let d = compile("").unwrap();
    assert_eq!(d.render(), "DFA  | \n->*0 | \n");
}
