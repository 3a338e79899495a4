use automata::cfg::{remove_direct_left_recursion, Production, Symbol, CFG};

fn var(s: &str) -> Symbol {
    Symbol::Variable(s.to_string())
}

fn term(s: &str) -> Symbol {
    Symbol::Terminal(s.to_string())
}

fn prod(left: &str, right: Vec<Symbol>) -> Production {
    Production { left: left.to_string(), right }
}

/// The classic expression grammar:
/// E => T A; A => Add T A; A => eps; T => F B; B => Mul F B; B => eps;
/// F => Lb E Rb; F => Num.
fn expr_grammar() -> CFG {
    CFG {
        terminals: vec![
            "Add".to_string(),
            "Mul".to_string(),
            "Num".to_string(),
            "Lb".to_string(),
            "Rb".to_string(),
        ],
        rules: vec![
            prod("E", vec![var("T"), var("A")]),
            prod("A", vec![term("Add"), var("T"), var("A")]),
            prod("A", vec![Symbol::Epsilon]),
            prod("T", vec![var("F"), var("B")]),
            prod("B", vec![term("Mul"), var("F"), var("B")]),
            prod("B", vec![Symbol::Epsilon]),
            prod("F", vec![term("Lb"), var("E"), term("Rb")]),
            prod("F", vec![term("Num")]),
        ],
        start: "E".to_string(),
    }
}

fn lookup<'a>(sets: &'a automata::cfg::Sets, key: &str) -> &'a Vec<Symbol> {
    &sets.0.iter().find(|e| e.key == key).expect(key).val
}

fn same_set(actual: &[Symbol], expected: &[Symbol]) {
    assert_eq!(actual.len(), expected.len(), "{:?} vs {:?}", actual, expected);
    for e in expected {
        assert!(actual.contains(e), "{:?} missing in {:?}", e, actual);
    }
}

#[test]
fn firsts_of_expression_grammar() {
    let g = expr_grammar();
    let firsts = g.get_firsts();
    assert_eq!(firsts.0.len(), 5);
    same_set(lookup(&firsts, "E"), &[term("Lb"), term("Num")]);
    same_set(lookup(&firsts, "A"), &[term("Add"), Symbol::Epsilon]);
    same_set(lookup(&firsts, "T"), &[term("Lb"), term("Num")]);
    same_set(lookup(&firsts, "B"), &[term("Mul"), Symbol::Epsilon]);
    same_set(lookup(&firsts, "F"), &[term("Lb"), term("Num")]);
}

#[test]
fn follows_of_expression_grammar() {
    let g = expr_grammar();
    let follows = g.get_follows();
    same_set(lookup(&follows, "E"), &[Symbol::Epsilon, term("Rb")]);
    same_set(lookup(&follows, "A"), &[Symbol::Epsilon, term("Rb")]);
    same_set(lookup(&follows, "T"), &[term("Add"), Symbol::Epsilon, term("Rb")]);
    same_set(lookup(&follows, "B"), &[term("Add"), Symbol::Epsilon, term("Rb")]);
    same_set(
        lookup(&follows, "F"),
        &[term("Mul"), term("Add"), Symbol::Epsilon, term("Rb")],
    );
}

#[test]
fn table_of_expression_grammar() {
    let g = expr_grammar();
    let table = g.get_table();
    let mut triples: Vec<(String, Symbol, usize)> = table
        .0
        .iter()
        .map(|e| (e.var.clone(), e.sym.clone(), e.prod))
        .collect();
    triples.sort_by(|a, b| format!("{:?}", a).cmp(&format!("{:?}", b)));
    let mut expected = vec![
        ("E".to_string(), term("Lb"), 0),
        ("E".to_string(), term("Num"), 0),
        ("A".to_string(), term("Add"), 1),
        ("T".to_string(), term("Lb"), 3),
        ("T".to_string(), term("Num"), 3),
        ("B".to_string(), term("Mul"), 4),
        ("F".to_string(), term("Lb"), 6),
        ("F".to_string(), term("Num"), 7),
    ];
    expected.sort_by(|a, b| format!("{:?}", a).cmp(&format!("{:?}", b)));
    assert_eq!(triples, expected);
}

#[test]
fn first_of_one_symbol() {
    let g = expr_grammar();
    let firsts = g.get_firsts();
    same_set(&g.get_first(&term("Num"), &firsts), &[term("Num")]);
    same_set(&g.get_first(&var("A"), &firsts), &[term("Add"), Symbol::Epsilon]);
    same_set(&g.get_first(&Symbol::Epsilon, &firsts), &[]);
}

#[test]
fn string_first_of_suffixes() {
    let g = expr_grammar();
    let firsts = g.get_firsts();
    // [A]: FIRST(A) without epsilon, plus epsilon since A derives it.
    same_set(
        &g.get_string_first(&[var("A")], &firsts),
        &[term("Add"), Symbol::Epsilon],
    );
    // The empty string has FIRST {epsilon}.
    same_set(&g.get_string_first(&[], &firsts), &[Symbol::Epsilon]);
    // A leading terminal ends the scan.
    same_set(
        &g.get_string_first(&[term("Num"), var("A")], &firsts),
        &[term("Num")],
    );
}

#[test]
fn removes_direct_left_recursion() {
    // A => A a | b  becomes  A$ => a A$; A => b A$; A$ => eps.
    let rules = vec![
        prod("A", vec![var("A"), term("a")]),
        prod("A", vec![term("b")]),
    ];
    let out = remove_direct_left_recursion(&rules);
    assert_eq!(out.len(), 3);
    assert_eq!(out[0].left, "A$");
    assert_eq!(out[0].right, vec![term("a"), var("A$")]);
    assert_eq!(out[1].left, "A");
    assert_eq!(out[1].right, vec![term("b"), var("A$")]);
    assert_eq!(out[2].left, "A$");
    assert_eq!(out[2].right, vec![Symbol::Epsilon]);
}

#[test]
fn left_recursion_removal_keeps_other_rules() {
    let rules = vec![
        prod("S", vec![var("A"), term("x")]),
        prod("A", vec![term("b")]),
    ];
    let out = remove_direct_left_recursion(&rules);
    assert_eq!(out.len(), 2);
    assert_eq!(out[0].left, "S");
    assert_eq!(out[0].right, vec![var("A"), term("x")]);
    assert_eq!(out[1].left, "A");
    assert_eq!(out[1].right, vec![term("b")]);
}

#[test]
fn table_cell_replaced_by_later_rule() {
    // Two productions of one variable sharing a FIRST terminal: the later one
    // wins the cell.
    let g = CFG {
        terminals: vec!["x".to_string()],
        rules: vec![
            prod("S", vec![term("x")]),
            prod("S", vec![term("x"), term("x")]),
        ],
        start: "S".to_string(),
    };
    let table = g.get_table();
    assert_eq!(table.0.len(), 1);
    assert_eq!(table.0[0].var, "S");
    assert_eq!(table.0[0].sym, term("x"));
    assert_eq!(table.0[0].prod, 1);
}

#[test]
fn production_render() {
    let p = prod("E", vec![var("T"), var("A")]);
    assert_eq!(p.render(), "E => T A");
    let q = prod("A", vec![Symbol::Epsilon]);
    assert_eq!(q.render(), "A => #");
}

#[test]
fn sets_render() {
    let g = expr_grammar();
    let firsts = g.get_firsts();
    let text = firsts.render();
    assert_eq!(text.lines().count(), 5);
    let e_line = text.lines().find(|l| l.starts_with("E:")).unwrap();
    assert!(e_line == "E: { Lb, Num }" || e_line == "E: { Num, Lb }");
}

#[test]
fn table_render() {
    let g = expr_grammar();
    let table = g.get_table();
    assert!(table.0.iter().all(|e| e.prod < g.rules.len()));
    let text = table.render(&g.rules);
    assert_eq!(text.lines().count(), 8);
    assert!(text.contains("( A, Add ): A => Add T A"));
}
