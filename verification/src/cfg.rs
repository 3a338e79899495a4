//! Context-free grammar analysis: FIRST and FOLLOW sets, the LL(1) parse
//! table, and removal of direct left recursion.
//!
//! Sets of symbols and keyed collections of them are held as vectors in
//! insertion order, with duplicate-free values; the FIRST and FOLLOW
//! computations iterate one round function to a fixed point.

use vstd::prelude::*;
use vstd::string::*;
use crate::text::{spec_join, lemma_join_push, push_char};

verus! {

/// A grammar symbol: a nonterminal variable, a terminal, or epsilon (the
/// empty string).
#[derive(Debug, Clone, PartialEq, Eq, Hash)]
pub enum Symbol {
    Variable(String),
    Terminal(String),
    Epsilon,
}

/// The mathematical value of a symbol.
pub enum SymbolV {
    Variable(Seq<char>),
    Terminal(Seq<char>),
    Epsilon,
}

impl View for Symbol {
    type V = SymbolV;

    open spec fn view(&self) -> SymbolV {
        match self {
            Symbol::Variable(s) => SymbolV::Variable(s@),
            Symbol::Terminal(s) => SymbolV::Terminal(s@),
            Symbol::Epsilon => SymbolV::Epsilon,
        }
    }
}

/// One production: `left => right`.
#[derive(Debug, Clone)]
pub struct Production {
    pub left: String,
    pub right: Vec<Symbol>,
}

/// The mathematical value of a production.
pub struct ProductionV {
    pub left: Seq<char>,
    pub right: Seq<SymbolV>,
}

impl View for Production {
    type V = ProductionV;

    open spec fn view(&self) -> ProductionV {
        ProductionV { left: self.left@, right: syms_view(self.right@) }
    }
}

/// A context-free grammar: terminal names, productions, and the start
/// variable.
#[derive(Debug)]
pub struct CFG {
    pub terminals: Vec<String>,
    pub rules: Vec<Production>,
    pub start: String,
}

/// One keyed set of symbols (a FIRST or FOLLOW set).
#[derive(Debug)]
pub struct SetEntry {
    pub key: String,
    pub val: Vec<Symbol>,
}

/// The mathematical value of a keyed set.
pub struct EntryV {
    pub key: Seq<char>,
    pub val: Seq<SymbolV>,
}

impl View for SetEntry {
    type V = EntryV;

    open spec fn view(&self) -> EntryV {
        EntryV { key: self.key@, val: syms_view(self.val@) }
    }
}

/// Keyed sets of symbols, in insertion order of their keys.
#[derive(Debug)]
pub struct Sets(pub Vec<SetEntry>);

/// One LL(1) parse-table cell: on variable `var` and lookahead `sym`, apply
/// the production at index `prod` of the grammar's rule list.
#[derive(Debug)]
pub struct TableEntry {
    pub var: String,
    pub sym: Symbol,
    pub prod: usize,
}

/// The mathematical value of a parse-table cell.
pub struct TEntryV {
    pub var: Seq<char>,
    pub sym: SymbolV,
    pub prod: int,
}

impl View for TableEntry {
    type V = TEntryV;

    open spec fn view(&self) -> TEntryV {
        TEntryV { var: self.var@, sym: self.sym@, prod: self.prod as int }
    }
}

/// An LL(1) parse table as a list of cells, in insertion order.
#[derive(Debug)]
pub struct Table(pub Vec<TableEntry>);

/// The values of a sequence of symbols.
pub open spec fn syms_view(s: Seq<Symbol>) -> Seq<SymbolV> {
    s.map_values(|x: Symbol| x@)
}

/// The values of a sequence of keyed sets.
pub open spec fn entries_view(s: Seq<SetEntry>) -> Seq<EntryV> {
    s.map_values(|e: SetEntry| e@)
}

/// The values of a sequence of productions.
pub open spec fn rules_view(s: Seq<Production>) -> Seq<ProductionV> {
    s.map_values(|p: Production| p@)
}

/// The values of a sequence of table cells.
pub open spec fn table_view(s: Seq<TableEntry>) -> Seq<TEntryV> {
    s.map_values(|e: TableEntry| e@)
}

/// Set insertion: append the symbol unless it is already present.
pub open spec fn sv_insert(s: Seq<SymbolV>, x: SymbolV) -> Seq<SymbolV> {
    if s.contains(x) {
        s
    } else {
        s.push(x)
    }
}

/// Insert every symbol of `from`, in order.
pub open spec fn sv_insert_all(s: Seq<SymbolV>, from: Seq<SymbolV>) -> Seq<SymbolV>
    decreases from.len(),
{
    if from.len() == 0 {
        s
    } else {
        sv_insert_all(sv_insert(s, from[0]), from.drop_first())
    }
}

/// Insert every symbol of `from` except epsilon, in order.
pub open spec fn sv_insert_non_eps(s: Seq<SymbolV>, from: Seq<SymbolV>) -> Seq<SymbolV>
    decreases from.len(),
{
    if from.len() == 0 {
        s
    } else {
        let s2 = if from[0] is Epsilon {
            s
        } else {
            sv_insert(s, from[0])
        };
        sv_insert_non_eps(s2, from.drop_first())
    }
}

/// The keyed collection holds `k`.
pub open spec fn has_key(m: Seq<EntryV>, k: Seq<char>) -> bool {
    exists|i: int| 0 <= i < m.len() && (#[trigger] m[i]).key == k
}

/// The value stored under the first entry whose key is `k`, or the empty set.
pub open spec fn lookup_val(m: Seq<EntryV>, k: Seq<char>) -> Seq<SymbolV>
    decreases m.len(),
{
    if m.len() == 0 {
        Seq::empty()
    } else if m[0].key == k {
        m[0].val
    } else {
        lookup_val(m.drop_first(), k)
    }
}

/// Append an empty entry for `k` unless the key is already present.
pub open spec fn ensure_key(m: Seq<EntryV>, k: Seq<char>) -> Seq<EntryV> {
    if has_key(m, k) {
        m
    } else {
        m.push(EntryV { key: k, val: Seq::empty() })
    }
}

/// The FIRST set contributed by one symbol under the current approximation
/// `m`: a terminal contributes itself, a variable contributes its current
/// FIRST set, and epsilon contributes nothing on its own.
pub open spec fn first_of(m: Seq<EntryV>, x: SymbolV) -> Seq<SymbolV> {
    match x {
        SymbolV::Terminal(_) => seq![x],
        SymbolV::Variable(v) => lookup_val(m, v),
        SymbolV::Epsilon => Seq::empty(),
    }
}

/// Scan one production body for FIRST(left): a leading terminal or an
/// explicit epsilon is added and ends the scan; a leading variable adds its
/// current FIRST set without epsilon and the scan continues only when that
/// set holds epsilon; a fully scanned body adds epsilon.
pub open spec fn scan_rule(m: Seq<EntryV>, val: Seq<SymbolV>, right: Seq<SymbolV>) -> Seq<SymbolV>
    decreases right.len(),
{
    if right.len() == 0 {
        sv_insert(val, SymbolV::Epsilon)
    } else {
        match right[0] {
            SymbolV::Terminal(_) => sv_insert(val, right[0]),
            SymbolV::Epsilon => sv_insert(val, SymbolV::Epsilon),
            SymbolV::Variable(v) => {
                let fv = lookup_val(m, v);
                let val2 = sv_insert_non_eps(val, fv);
                if fv.contains(SymbolV::Epsilon) {
                    scan_rule(m, val2, right.drop_first())
                } else {
                    val2
                }
            },
        }
    }
}

/// One round of the FIRST computation for one variable: scan every
/// production of that variable against the previous approximation.
pub open spec fn first_var_round(
    m: Seq<EntryV>,
    key: Seq<char>,
    val: Seq<SymbolV>,
    rules: Seq<ProductionV>,
) -> Seq<SymbolV>
    decreases rules.len(),
{
    if rules.len() == 0 {
        val
    } else {
        let val2 = if rules[0].left == key {
            scan_rule(m, val, rules[0].right)
        } else {
            val
        };
        first_var_round(m, key, val2, rules.drop_first())
    }
}

/// One round of the FIRST computation: recompute every variable's set
/// against the previous approximation.
pub open spec fn first_round(m: Seq<EntryV>, rules: Seq<ProductionV>) -> Seq<EntryV> {
    Seq::new(m.len(), |i: int| EntryV { key: m[i].key, val: first_var_round(m, m[i].key, m[i].val, rules) })
}

/// Iterate the FIRST round to a fixed point, with the given fuel.
pub open spec fn first_iterate(m: Seq<EntryV>, rules: Seq<ProductionV>, fuel: nat) -> Seq<EntryV>
    decreases fuel,
{
    if fuel == 0 {
        m
    } else {
        let m2 = first_round(m, rules);
        if m2 == m {
            m
        } else {
            first_iterate(m2, rules, (fuel - 1) as nat)
        }
    }
}

/// One empty entry per distinct left-hand side, in order of first appearance.
pub open spec fn init_keys(acc: Seq<EntryV>, rules: Seq<ProductionV>) -> Seq<EntryV>
    decreases rules.len(),
{
    if rules.len() == 0 {
        acc
    } else {
        init_keys(ensure_key(acc, rules[0].left), rules.drop_first())
    }
}

/// The FIRST sets of a grammar: the fixed point of the round function over
/// the empty initial sets.
pub open spec fn spec_firsts(rules: Seq<ProductionV>) -> Seq<EntryV> {
    first_iterate(init_keys(Seq::empty(), rules), rules, usize::MAX as nat)
}

/// The FIRST set of a string of symbols: leading contributions as long as
/// every one of them holds epsilon; epsilon itself when the whole string was
/// scanned.
pub open spec fn string_first_acc(
    m: Seq<EntryV>,
    acc: Seq<SymbolV>,
    str: Seq<SymbolV>,
) -> Seq<SymbolV>
    decreases str.len(),
{
    if str.len() == 0 {
        sv_insert(acc, SymbolV::Epsilon)
    } else {
        let fv = first_of(m, str[0]);
        let acc2 = sv_insert_non_eps(acc, fv);
        if fv.contains(SymbolV::Epsilon) {
            string_first_acc(m, acc2, str.drop_first())
        } else {
            acc2
        }
    }
}

/// The FIRST set of a string of symbols under the FIRST sets `m`.
pub open spec fn string_first(m: Seq<EntryV>, str: Seq<SymbolV>) -> Seq<SymbolV> {
    string_first_acc(m, Seq::empty(), str)
}

/// Whether two symbols denote the same value.
fn sym_eq(a: &Symbol, b: &Symbol) -> (r: bool)
    ensures
        r == (a@ == b@),
{
    match (a, b) {
        (Symbol::Variable(x), Symbol::Variable(y)) => x.eq(y),
        (Symbol::Terminal(x), Symbol::Terminal(y)) => x.eq(y),
        (Symbol::Epsilon, Symbol::Epsilon) => true,
        _ => false,
    }
}

/// A copy of a symbol.
fn dup_symbol(s: &Symbol) -> (r: Symbol)
    ensures
        r == *s,
{
    match s {
        Symbol::Variable(x) => Symbol::Variable(x.clone()),
        Symbol::Terminal(x) => Symbol::Terminal(x.clone()),
        Symbol::Epsilon => Symbol::Epsilon,
    }
}

/// A copy of a sequence of symbols.
fn dup_syms(v: &Vec<Symbol>) -> (r: Vec<Symbol>)
    ensures
        r@ == v@,
{
    let mut r: Vec<Symbol> = Vec::new();
    let mut k: usize = 0;
    while k < v.len()
        invariant
            k <= v@.len(),
            r@.len() == k,
            forall|q: int| 0 <= q < k ==> r@[q] == v@[q],
        decreases v@.len() - k,
    {
        r.push(dup_symbol(&v[k]));
        k = k + 1;
    }
    proof {
        assert(r@ =~= v@);
    }
    r
}

/// Whether the set holds the symbol's value.
fn syms_contains(v: &Vec<Symbol>, x: &Symbol) -> (r: bool)
    ensures
        r == syms_view(v@).contains(x@),
{
    let mut k: usize = 0;
    while k < v.len()
        invariant
            k <= v@.len(),
            forall|q: int| 0 <= q < k ==> (#[trigger] v@[q])@ != x@,
        decreases v@.len() - k,
    {
        if sym_eq(&v[k], x) {
            proof {
                assert(syms_view(v@)[k as int] == x@);
            }
            return true;
        }
        k = k + 1;
    }
    proof {
        if syms_view(v@).contains(x@) {
            let q = choose|q: int| 0 <= q < syms_view(v@).len() && syms_view(v@)[q] == x@;
            assert(v@[q]@ == x@);
        }
    }
    false
}

/// Set insertion in place.
fn syms_insert(v: &mut Vec<Symbol>, x: Symbol)
    ensures
        syms_view(final(v)@) == sv_insert(syms_view(old(v)@), x@),
{
    if !syms_contains(v, &x) {
        let ghost pre = v@;
        v.push(x);
        proof {
            assert(syms_view(v@) =~= syms_view(pre).push(x@));
        }
    }
}

/// Insert every symbol of `from` except epsilon, in order.
fn syms_insert_non_eps(v: &mut Vec<Symbol>, from: &Vec<Symbol>)
    ensures
        syms_view(final(v)@) == sv_insert_non_eps(syms_view(old(v)@), syms_view(from@)),
{
    proof {
        assert(syms_view(from@).skip(0) =~= syms_view(from@));
    }
    let mut k: usize = 0;
    while k < from.len()
        invariant
            k <= from@.len(),
            sv_insert_non_eps(syms_view(v@), syms_view(from@).skip(k as int)) == sv_insert_non_eps(
                syms_view(old(v)@),
                syms_view(from@),
            ),
        decreases from@.len() - k,
    {
        let ghost rest = syms_view(from@).skip(k as int);
        proof {
            assert(rest[0] == from@[k as int]@);
            assert(rest.drop_first() =~= syms_view(from@).skip(k as int + 1));
        }
        match &from[k] {
            Symbol::Epsilon => {},
            _ => {
                syms_insert(v, dup_symbol(&from[k]));
            },
        }
        k = k + 1;
    }
    proof {
        assert(syms_view(from@).skip(from@.len() as int) =~= Seq::<SymbolV>::empty());
    }
}

/// Insert every symbol of `from`, in order.
fn syms_insert_all(v: &mut Vec<Symbol>, from: &Vec<Symbol>)
    ensures
        syms_view(final(v)@) == sv_insert_all(syms_view(old(v)@), syms_view(from@)),
{
    proof {
        assert(syms_view(from@).skip(0) =~= syms_view(from@));
    }
    let mut k: usize = 0;
    while k < from.len()
        invariant
            k <= from@.len(),
            sv_insert_all(syms_view(v@), syms_view(from@).skip(k as int)) == sv_insert_all(
                syms_view(old(v)@),
                syms_view(from@),
            ),
        decreases from@.len() - k,
    {
        let ghost rest = syms_view(from@).skip(k as int);
        proof {
            assert(rest[0] == from@[k as int]@);
            assert(rest.drop_first() =~= syms_view(from@).skip(k as int + 1));
        }
        syms_insert(v, dup_symbol(&from[k]));
        k = k + 1;
    }
    proof {
        assert(syms_view(from@).skip(from@.len() as int) =~= Seq::<SymbolV>::empty());
    }
}

/// The value stored under `k`, or the empty set.
fn lookup_exec(m: &Vec<SetEntry>, pos: usize, k: &String) -> (r: Vec<Symbol>)
    requires
        pos <= m@.len(),
    ensures
        syms_view(r@) == lookup_val(entries_view(m@).skip(pos as int), k@),
    decreases m@.len() - pos,
{
    if pos == m.len() {
        proof {
            assert(entries_view(m@).skip(pos as int) =~= Seq::<EntryV>::empty());
        }
        Vec::new()
    } else {
        proof {
            assert(entries_view(m@).skip(pos as int)[0] == m@[pos as int]@);
            assert(entries_view(m@).skip(pos as int).drop_first() =~= entries_view(m@).skip(
                pos as int + 1,
            ));
        }
        if m[pos].key.eq(k) {
            dup_syms(&m[pos].val)
        } else {
            lookup_exec(m, pos + 1, k)
        }
    }
}

/// Whether the keyed collection holds `k`.
fn has_key_exec(m: &Vec<SetEntry>, k: &String) -> (r: bool)
    ensures
        r == has_key(entries_view(m@), k@),
{
    let mut q: usize = 0;
    while q < m.len()
        invariant
            q <= m@.len(),
            forall|i: int| 0 <= i < q ==> (#[trigger] m@[i])@.key != k@,
        decreases m@.len() - q,
    {
        if m[q].key.eq(k) {
            proof {
                assert(entries_view(m@)[q as int].key == k@);
            }
            return true;
        }
        q = q + 1;
    }
    proof {
        if has_key(entries_view(m@), k@) {
            let i = choose|i: int|
                0 <= i < entries_view(m@).len() && (#[trigger] entries_view(m@)[i]).key == k@;
            assert(m@[i]@.key == k@);
        }
    }
    false
}

/// A copy of keyed sets.
fn dup_entries(m: &Vec<SetEntry>) -> (r: Vec<SetEntry>)
    ensures
        entries_view(r@) == entries_view(m@),
{
    let mut r: Vec<SetEntry> = Vec::new();
    let mut k: usize = 0;
    while k < m.len()
        invariant
            k <= m@.len(),
            r@.len() == k,
            forall|q: int| 0 <= q < k ==> (#[trigger] r@[q])@ == m@[q]@,
        decreases m@.len() - k,
    {
        r.push(SetEntry { key: m[k].key.clone(), val: dup_syms(&m[k].val) });
        k = k + 1;
    }
    proof {
        assert(entries_view(r@) =~= entries_view(m@));
    }
    r
}

/// Whether two symbol sequences denote the same values.
fn syms_eq(a: &Vec<Symbol>, b: &Vec<Symbol>) -> (r: bool)
    ensures
        r == (syms_view(a@) == syms_view(b@)),
{
    if a.len() != b.len() {
        proof {
            assert(syms_view(a@).len() != syms_view(b@).len());
        }
        return false;
    }
    let mut k: usize = 0;
    while k < a.len()
        invariant
            k <= a@.len(),
            a@.len() == b@.len(),
            forall|q: int| 0 <= q < k ==> (#[trigger] a@[q])@ == b@[q]@,
        decreases a@.len() - k,
    {
        if !sym_eq(&a[k], &b[k]) {
            proof {
                assert(syms_view(a@)[k as int] != syms_view(b@)[k as int]);
            }
            return false;
        }
        k = k + 1;
    }
    proof {
        assert(syms_view(a@) =~= syms_view(b@));
    }
    true
}

/// Whether two keyed collections denote the same values.
fn entries_eq(a: &Vec<SetEntry>, b: &Vec<SetEntry>) -> (r: bool)
    ensures
        r == (entries_view(a@) == entries_view(b@)),
{
    if a.len() != b.len() {
        proof {
            assert(entries_view(a@).len() != entries_view(b@).len());
        }
        return false;
    }
    let mut k: usize = 0;
    while k < a.len()
        invariant
            k <= a@.len(),
            a@.len() == b@.len(),
            forall|q: int| 0 <= q < k ==> (#[trigger] a@[q])@ == b@[q]@,
        decreases a@.len() - k,
    {
        if !a[k].key.eq(&b[k].key) || !syms_eq(&a[k].val, &b[k].val) {
            proof {
                assert(entries_view(a@)[k as int] != entries_view(b@)[k as int]);
            }
            return false;
        }
        k = k + 1;
    }
    proof {
        assert(entries_view(a@) =~= entries_view(b@));
    }
    true
}

/// The FIRST set contributed by one symbol, executable form.
fn first_of_exec(m: &Vec<SetEntry>, x: &Symbol) -> (r: Vec<Symbol>)
    ensures
        syms_view(r@) == first_of(entries_view(m@), x@),
{
    match x {
        Symbol::Terminal(_) => {
            let mut v: Vec<Symbol> = Vec::new();
            v.push(dup_symbol(x));
            proof {
                assert(syms_view(v@) =~= seq![x@]);
            }
            v
        },
        Symbol::Variable(u) => {
            proof {
                assert(entries_view(m@).skip(0) =~= entries_view(m@));
            }
            lookup_exec(m, 0, u)
        },
        Symbol::Epsilon => {
            let v: Vec<Symbol> = Vec::new();
            proof {
                assert(syms_view(v@) =~= Seq::<SymbolV>::empty());
            }
            v
        },
    }
}

/// Scan one production body for its FIRST contribution, executable form.
fn scan_rule_exec(m: &Vec<SetEntry>, val: Vec<Symbol>, right: &Vec<Symbol>, pos: usize) -> (r: Vec<
    Symbol,
>)
    requires
        pos <= right@.len(),
    ensures
        syms_view(r@) == scan_rule(
            entries_view(m@),
            syms_view(val@),
            syms_view(right@).skip(pos as int),
        ),
    decreases right@.len() - pos,
{
    proof {
        if pos < right@.len() {
            assert(syms_view(right@).skip(pos as int)[0] == right@[pos as int]@);
            assert(syms_view(right@).skip(pos as int).drop_first() =~= syms_view(right@).skip(
                pos as int + 1,
            ));
        } else {
            assert(syms_view(right@).skip(pos as int) =~= Seq::<SymbolV>::empty());
        }
    }
    if pos == right.len() {
        let mut v = val;
        syms_insert(&mut v, Symbol::Epsilon);
        v
    } else {
        match &right[pos] {
            Symbol::Terminal(_) => {
                let mut v = val;
                syms_insert(&mut v, dup_symbol(&right[pos]));
                v
            },
            Symbol::Epsilon => {
                let mut v = val;
                syms_insert(&mut v, Symbol::Epsilon);
                v
            },
            Symbol::Variable(u) => {
                proof {
                    assert(entries_view(m@).skip(0) =~= entries_view(m@));
                }
                let fv = lookup_exec(m, 0, u);
                let mut v2 = val;
                syms_insert_non_eps(&mut v2, &fv);
                if syms_contains(&fv, &Symbol::Epsilon) {
                    scan_rule_exec(m, v2, right, pos + 1)
                } else {
                    v2
                }
            },
        }
    }
}

/// The FIRST set of a string of symbols, executable form.
fn string_first_exec(m: &Vec<SetEntry>, acc: Vec<Symbol>, str: &[Symbol], pos: usize) -> (r: Vec<
    Symbol,
>)
    requires
        pos <= str@.len(),
    ensures
        syms_view(r@) == string_first_acc(
            entries_view(m@),
            syms_view(acc@),
            syms_view(str@).skip(pos as int),
        ),
    decreases str@.len() - pos,
{
    proof {
        if pos < str@.len() {
            assert(syms_view(str@).skip(pos as int)[0] == str@[pos as int]@);
            assert(syms_view(str@).skip(pos as int).drop_first() =~= syms_view(str@).skip(
                pos as int + 1,
            ));
        } else {
            assert(syms_view(str@).skip(pos as int) =~= Seq::<SymbolV>::empty());
        }
    }
    if pos == str.len() {
        let mut v = acc;
        syms_insert(&mut v, Symbol::Epsilon);
        v
    } else {
        let fv = first_of_exec(m, &str[pos]);
        let mut v2 = acc;
        syms_insert_non_eps(&mut v2, &fv);
        if syms_contains(&fv, &Symbol::Epsilon) {
            string_first_exec(m, v2, str, pos + 1)
        } else {
            v2
        }
    }
}

impl CFG {
    /// The productions of the grammar as mathematical values.
    pub open spec fn rules_v(&self) -> Seq<ProductionV> {
        rules_view(self.rules@)
    }

    /// The FIRST set of one symbol, read from computed FIRST sets: a terminal
    /// yields itself, a variable yields its computed set, and epsilon yields
    /// the empty set.
    pub fn get_first(&self, x: &Symbol, firsts: &Sets) -> (r: Vec<Symbol>)
        ensures
            syms_view(r@) == first_of(entries_view(firsts.0@), x@),
    {
        first_of_exec(&firsts.0, x)
    }

    /// The FIRST sets of the grammar's variables: the fixed point of
    /// rescanning every production, starting from empty sets, one entry per
    /// distinct left-hand side in order of first appearance.
    pub fn get_firsts(&self) -> (r: Sets)
        ensures
            entries_view(r.0@) == spec_firsts(self.rules_v()),
    {
        let ghost rv = rules_view(self.rules@);
        let mut m: Vec<SetEntry> = Vec::new();
        let mut i: usize = 0;
        proof {
            assert(rv.skip(0) =~= rv);
            assert(entries_view(m@) =~= Seq::<EntryV>::empty());
        }
        while i < self.rules.len()
            invariant
                i <= self.rules@.len(),
                rv == rules_view(self.rules@),
                init_keys(entries_view(m@), rv.skip(i as int)) == init_keys(Seq::empty(), rv),
            decreases self.rules@.len() - i,
        {
            proof {
                assert(rv.skip(i as int)[0] == self.rules@[i as int]@);
                assert(rv.skip(i as int).drop_first() =~= rv.skip(i as int + 1));
            }
            if !has_key_exec(&m, &self.rules[i].left) {
                let ghost pre = m@;
                m.push(SetEntry { key: self.rules[i].left.clone(), val: Vec::new() });
                proof {
                    assert(syms_view(Seq::<Symbol>::empty()) =~= Seq::<SymbolV>::empty());
                    assert(m@[m@.len() - 1]@ == EntryV {
                        key: self.rules@[i as int]@.left,
                        val: Seq::empty(),
                    });
                    assert(entries_view(m@) =~= entries_view(pre).push(
                        EntryV { key: self.rules@[i as int]@.left, val: Seq::empty() },
                    ));
                }
            }
            i = i + 1;
        }
        proof {
            assert(rv.skip(rv.len() as int) =~= Seq::<ProductionV>::empty());
        }
        let mut fuel: usize = 0;
        while fuel < usize::MAX
            invariant
                rv == rules_view(self.rules@),
                self.rules@.len() == rv.len(),
                fuel <= usize::MAX,
                first_iterate(entries_view(m@), rv, (usize::MAX - fuel) as nat) == spec_firsts(rv),
            decreases usize::MAX - fuel,
        {
            let mut nm: Vec<SetEntry> = Vec::new();
            let mut e: usize = 0;
            while e < m.len()
                invariant
                    e <= m@.len(),
                    nm@.len() == e,
                    rv == rules_view(self.rules@),
                    self.rules@.len() == rv.len(),
                    forall|q: int|
                        0 <= q < e ==> (#[trigger] nm@[q])@ == first_round(entries_view(m@), rv)[q],
                decreases m@.len() - e,
            {
                let key = m[e].key.clone();
                let mut val = dup_syms(&m[e].val);
                proof {
                    assert(rv.skip(0) =~= rv);
                    assert(syms_view(val@) == entries_view(m@)[e as int].val);
                }
                let mut ri: usize = 0;
                while ri < self.rules.len()
                    invariant
                        ri <= self.rules@.len(),
                        rv == rules_view(self.rules@),
                        self.rules@.len() == rv.len(),
                        key@ == entries_view(m@)[e as int].key,
                        first_var_round(
                            entries_view(m@),
                            key@,
                            syms_view(val@),
                            rv.skip(ri as int),
                        ) == first_var_round(
                            entries_view(m@),
                            key@,
                            entries_view(m@)[e as int].val,
                            rv,
                        ),
                        e < m@.len(),
                    decreases self.rules@.len() - ri,
                {
                    proof {
                        assert(rv.skip(ri as int)[0] == self.rules@[ri as int]@);
                        assert(rv.skip(ri as int).drop_first() =~= rv.skip(ri as int + 1));
                    }
                    if self.rules[ri].left.eq(&key) {
                        val = scan_rule_exec(&m, val, &self.rules[ri].right, 0);
                        proof {
                            assert(syms_view(self.rules@[ri as int].right@).skip(0) =~= self.rules@[
                                ri as int
                            ]@.right);
                        }
                    }
                    ri = ri + 1;
                }
                proof {
                    assert(rv.skip(rv.len() as int) =~= Seq::<ProductionV>::empty());
                }
                nm.push(SetEntry { key, val });
                e = e + 1;
                proof {
                    assert(nm@[e as int - 1]@ == first_round(entries_view(m@), rv)[e as int - 1]);
                }
            }
            proof {
                assert(entries_view(nm@) =~= first_round(entries_view(m@), rv));
            }
            if entries_eq(&nm, &m) {
                return Sets(m);
            }
            m = nm;
            fuel = fuel + 1;
        }
        Sets(m)
    }

    /// The FIRST set of a string of symbols, under computed FIRST sets:
    /// leading contributions while each holds epsilon; epsilon itself when
    /// the whole string passes.
    pub fn get_string_first(&self, str: &[Symbol], firsts: &Sets) -> (r: Vec<Symbol>)
        ensures
            syms_view(r@) == string_first(entries_view(firsts.0@), syms_view(str@)),
    {
        let acc: Vec<Symbol> = Vec::new();
        proof {
            assert(syms_view(acc@) =~= Seq::<SymbolV>::empty());
            assert(syms_view(str@).skip(0) =~= syms_view(str@));
        }
        string_first_exec(&firsts.0, acc, str, 0)
    }
}

/// Key seeding for FOLLOW at one rule position `i` (1-based): a variable at
/// position `i - 1` gets an entry, and when the rest of the body can derive
/// epsilon the rule's left-hand side gets one first.
pub open spec fn follow_seed_positions(
    m: Seq<EntryV>,
    firsts: Seq<EntryV>,
    left: Seq<char>,
    right: Seq<SymbolV>,
    i: int,
) -> Seq<EntryV>
    decreases right.len() - i + 1,
{
    if i < 1 || i > right.len() {
        m
    } else {
        let m2 = match right[i - 1] {
            SymbolV::Variable(v) => {
                let nf = string_first(firsts, right.skip(i));
                if nf.contains(SymbolV::Epsilon) {
                    ensure_key(ensure_key(m, left), v)
                } else {
                    ensure_key(m, v)
                }
            },
            _ => m,
        };
        follow_seed_positions(m2, firsts, left, right, i + 1)
    }
}

/// Key seeding for FOLLOW over all rules.
pub open spec fn follow_seed_rules(
    m: Seq<EntryV>,
    firsts: Seq<EntryV>,
    rules: Seq<ProductionV>,
) -> Seq<EntryV>
    decreases rules.len(),
{
    if rules.len() == 0 {
        m
    } else {
        follow_seed_rules(
            follow_seed_positions(m, firsts, rules[0].left, rules[0].right, 1),
            firsts,
            rules.drop_first(),
        )
    }
}

/// The initial FOLLOW sets: the start variable is followed by epsilon (end of
/// input).
pub open spec fn follow_init(start: Seq<char>) -> Seq<EntryV> {
    seq![EntryV { key: start, val: seq![SymbolV::Epsilon] }]
}

/// One round of the FOLLOW computation for variable `w` at one rule position:
/// when `w` stands at position `i - 1`, it is followed by the FIRST set of
/// the rest of the body (without epsilon), preceded by everything that
/// follows the rule's left-hand side when that rest can derive epsilon.
pub open spec fn follow_positions(
    m: Seq<EntryV>,
    firsts: Seq<EntryV>,
    w: Seq<char>,
    val: Seq<SymbolV>,
    left: Seq<char>,
    right: Seq<SymbolV>,
    i: int,
) -> Seq<SymbolV>
    decreases right.len() - i + 1,
{
    if i < 1 || i > right.len() {
        val
    } else {
        let val2 = if right[i - 1] == SymbolV::Variable(w) {
            let nf = string_first(firsts, right.skip(i));
            let va = if nf.contains(SymbolV::Epsilon) {
                sv_insert_all(val, lookup_val(m, left))
            } else {
                val
            };
            sv_insert_non_eps(va, nf)
        } else {
            val
        };
        follow_positions(m, firsts, w, val2, left, right, i + 1)
    }
}

/// One round of the FOLLOW computation for one variable over all rules.
pub open spec fn follow_var_round(
    m: Seq<EntryV>,
    firsts: Seq<EntryV>,
    w: Seq<char>,
    val: Seq<SymbolV>,
    rules: Seq<ProductionV>,
) -> Seq<SymbolV>
    decreases rules.len(),
{
    if rules.len() == 0 {
        val
    } else {
        follow_var_round(
            m,
            firsts,
            w,
            follow_positions(m, firsts, w, val, rules[0].left, rules[0].right, 1),
            rules.drop_first(),
        )
    }
}

/// One round of the FOLLOW computation: recompute every variable's set
/// against the previous approximation.
pub open spec fn follow_round(
    m: Seq<EntryV>,
    firsts: Seq<EntryV>,
    rules: Seq<ProductionV>,
) -> Seq<EntryV> {
    Seq::new(
        m.len(),
        |i: int| EntryV { key: m[i].key, val: follow_var_round(m, firsts, m[i].key, m[i].val, rules) },
    )
}

/// Iterate the FOLLOW round to a fixed point, with the given fuel.
pub open spec fn follow_iterate(
    m: Seq<EntryV>,
    firsts: Seq<EntryV>,
    rules: Seq<ProductionV>,
    fuel: nat,
) -> Seq<EntryV>
    decreases fuel,
{
    if fuel == 0 {
        m
    } else {
        let m2 = follow_round(m, firsts, rules);
        if m2 == m {
            m
        } else {
            follow_iterate(m2, firsts, rules, (fuel - 1) as nat)
        }
    }
}

/// The FOLLOW sets of a grammar: seed the keys, then iterate the round
/// function to a fixed point, all under the grammar's FIRST sets.
pub open spec fn spec_follows(rules: Seq<ProductionV>, start: Seq<char>) -> Seq<EntryV> {
    let firsts = spec_firsts(rules);
    follow_iterate(
        follow_seed_rules(follow_init(start), firsts, rules),
        firsts,
        rules,
        usize::MAX as nat,
    )
}

/// Append an empty entry for the key unless it is present.
fn ensure_key_exec(m: &mut Vec<SetEntry>, k: &String)
    ensures
        entries_view(final(m)@) == ensure_key(entries_view(old(m)@), k@),
{
    if !has_key_exec(m, k) {
        let ghost pre = m@;
        m.push(SetEntry { key: k.clone(), val: Vec::new() });
        proof {
            assert(syms_view(Seq::<Symbol>::empty()) =~= Seq::<SymbolV>::empty());
            assert(m@[m@.len() - 1]@ == EntryV { key: k@, val: Seq::empty() });
            assert(entries_view(m@) =~= entries_view(pre).push(
                EntryV { key: k@, val: Seq::empty() },
            ));
        }
    }
}

impl CFG {
    /// The FOLLOW sets of the grammar's variables: the fixed point of the
    /// propagation rounds over the seeded keys, under the grammar's FIRST
    /// sets; the start variable is followed by epsilon (end of input).
    pub fn get_follows(&self) -> (r: Sets)
        ensures
            entries_view(r.0@) == spec_follows(self.rules_v(), self.start@),
    {
        let ghost rv = rules_view(self.rules@);
        let firsts = self.get_firsts();
        let ghost fv = entries_view(firsts.0@);
        let mut m: Vec<SetEntry> = Vec::new();
        let mut eps_val: Vec<Symbol> = Vec::new();
        eps_val.push(Symbol::Epsilon);
        m.push(SetEntry { key: self.start.clone(), val: eps_val });
        proof {
            assert(syms_view(m@[0].val@) =~= seq![SymbolV::Epsilon]);
            assert(m@[0]@ == EntryV { key: self.start@, val: seq![SymbolV::Epsilon] });
            assert(entries_view(m@) =~= follow_init(self.start@));
            assert(rv.skip(0) =~= rv);
        }
        let mut ri: usize = 0;
        while ri < self.rules.len()
            invariant
                ri <= self.rules@.len(),
                rv == rules_view(self.rules@),
                fv == entries_view(firsts.0@),
                follow_seed_rules(entries_view(m@), fv, rv.skip(ri as int)) == follow_seed_rules(
                    follow_init(self.start@),
                    fv,
                    rv,
                ),
            decreases self.rules@.len() - ri,
        {
            proof {
                assert(rv.skip(ri as int)[0] == self.rules@[ri as int]@);
                assert(rv.skip(ri as int).drop_first() =~= rv.skip(ri as int + 1));
            }
            let ghost m_rule = entries_view(m@);
            let ghost leftv = self.rules@[ri as int]@.left;
            let ghost rightv = self.rules@[ri as int]@.right;
            let rlen = self.rules[ri].right.len();
            let mut i: usize = 0;
            while i < rlen
                invariant
                    i <= rlen,
                    rv == rules_view(self.rules@),
                    fv == entries_view(firsts.0@),
                    ri < self.rules@.len(),
                    rlen == self.rules@[ri as int].right@.len(),
                    leftv == self.rules@[ri as int]@.left,
                    rightv == self.rules@[ri as int]@.right,
                    rightv.len() == rlen,
                    follow_seed_positions(entries_view(m@), fv, leftv, rightv, i as int + 1)
                        == follow_seed_positions(m_rule, fv, leftv, rightv, 1),
                decreases rlen - i,
            {
                match &self.rules[ri].right[i] {
                    Symbol::Variable(v) => {
                        proof {
                            assert(rightv[i as int] == self.rules@[ri as int].right@[i as int]@);
                        }
                        let nf = self.get_string_first(
                            &self.rules[ri].right[i + 1..rlen],
                            &firsts,
                        );
                        proof {
                            assert(syms_view(self.rules@[ri as int].right@.subrange(
                                i as int + 1,
                                rlen as int,
                            )) =~= rightv.skip(i as int + 1));
                        }
                        if syms_contains(&nf, &Symbol::Epsilon) {
                            ensure_key_exec(&mut m, &self.rules[ri].left);
                            ensure_key_exec(&mut m, v);
                        } else {
                            ensure_key_exec(&mut m, v);
                        }
                    },
                    _ => {
                        proof {
                            assert(rightv[i as int] == self.rules@[ri as int].right@[i as int]@);
                            assert(!(rightv[i as int] is Variable));
                        }
                    },
                }
                i = i + 1;
            }
            ri = ri + 1;
        }
        proof {
            assert(rv.skip(rv.len() as int) =~= Seq::<ProductionV>::empty());
        }
        let mut fuel: usize = 0;
        while fuel < usize::MAX
            invariant
                rv == rules_view(self.rules@),
                fv == entries_view(firsts.0@),
                fuel <= usize::MAX,
                follow_iterate(entries_view(m@), fv, rv, (usize::MAX - fuel) as nat)
                    == spec_follows(rv, self.start@),
            decreases usize::MAX - fuel,
        {
            let mut nm: Vec<SetEntry> = Vec::new();
            let mut e: usize = 0;
            while e < m.len()
                invariant
                    e <= m@.len(),
                    nm@.len() == e,
                    rv == rules_view(self.rules@),
                    fv == entries_view(firsts.0@),
                    forall|q: int|
                        0 <= q < e ==> (#[trigger] nm@[q])@ == follow_round(
                            entries_view(m@),
                            fv,
                            rv,
                        )[q],
                decreases m@.len() - e,
            {
                let key = m[e].key.clone();
                let mut val = dup_syms(&m[e].val);
                proof {
                    assert(rv.skip(0) =~= rv);
                    assert(syms_view(val@) == entries_view(m@)[e as int].val);
                }
                let mut ri2: usize = 0;
                while ri2 < self.rules.len()
                    invariant
                        ri2 <= self.rules@.len(),
                        rv == rules_view(self.rules@),
                        fv == entries_view(firsts.0@),
                        e < m@.len(),
                        key@ == entries_view(m@)[e as int].key,
                        follow_var_round(
                            entries_view(m@),
                            fv,
                            key@,
                            syms_view(val@),
                            rv.skip(ri2 as int),
                        ) == follow_var_round(
                            entries_view(m@),
                            fv,
                            key@,
                            entries_view(m@)[e as int].val,
                            rv,
                        ),
                    decreases self.rules@.len() - ri2,
                {
                    proof {
                        assert(rv.skip(ri2 as int)[0] == self.rules@[ri2 as int]@);
                        assert(rv.skip(ri2 as int).drop_first() =~= rv.skip(ri2 as int + 1));
                    }
                    let ghost leftv = self.rules@[ri2 as int]@.left;
                    let ghost rightv = self.rules@[ri2 as int]@.right;
                    let rlen = self.rules[ri2].right.len();
                    let ghost val_rule = syms_view(val@);
                    let mut i: usize = 0;
                    while i < rlen
                        invariant
                            i <= rlen,
                            rv == rules_view(self.rules@),
                            fv == entries_view(firsts.0@),
                            ri2 < self.rules@.len(),
                            rlen == self.rules@[ri2 as int].right@.len(),
                            leftv == self.rules@[ri2 as int]@.left,
                            rightv == self.rules@[ri2 as int]@.right,
                            rightv.len() == rlen,
                            key@ == entries_view(m@)[e as int].key,
                            e < m@.len(),
                            follow_positions(
                                entries_view(m@),
                                fv,
                                key@,
                                syms_view(val@),
                                leftv,
                                rightv,
                                i as int + 1,
                            ) == follow_positions(
                                entries_view(m@),
                                fv,
                                key@,
                                val_rule,
                                leftv,
                                rightv,
                                1,
                            ),
                        decreases rlen - i,
                    {
                        proof {
                            assert(rightv[i as int] == self.rules@[ri2 as int].right@[i as int]@);
                        }
                        let is_w = match &self.rules[ri2].right[i] {
                            Symbol::Variable(v) => v.eq(&key),
                            _ => false,
                        };
                        if is_w {
                            proof {
                                assert(rightv[i as int] == SymbolV::Variable(key@));
                            }
                            let nf = self.get_string_first(
                                &self.rules[ri2].right[i + 1..rlen],
                                &firsts,
                            );
                            proof {
                                assert(syms_view(self.rules@[ri2 as int].right@.subrange(
                                    i as int + 1,
                                    rlen as int,
                                )) =~= rightv.skip(i as int + 1));
                            }
                            if syms_contains(&nf, &Symbol::Epsilon) {
                                proof {
                                    assert(entries_view(m@).skip(0) =~= entries_view(m@));
                                }
                                let fol_a = lookup_exec(&m, 0, &self.rules[ri2].left);
                                syms_insert_all(&mut val, &fol_a);
                            }
                            syms_insert_non_eps(&mut val, &nf);
                        } else {
                            proof {
                                assert(rightv[i as int] != SymbolV::Variable(key@));
                            }
                        }
                        i = i + 1;
                    }
                    ri2 = ri2 + 1;
                }
                proof {
                    assert(rv.skip(rv.len() as int) =~= Seq::<ProductionV>::empty());
                }
                nm.push(SetEntry { key, val });
                e = e + 1;
                proof {
                    assert(nm@[e as int - 1]@ == follow_round(entries_view(m@), fv, rv)[e as int
                        - 1]);
                }
            }
            proof {
                assert(entries_view(nm@) =~= follow_round(entries_view(m@), fv, rv));
            }
            if entries_eq(&nm, &m) {
                return Sets(m);
            }
            m = nm;
            fuel = fuel + 1;
        }
        Sets(m)
    }
}

/// The index of the cell for `(var, sym)`, or -1.
pub open spec fn tbl_index(t: Seq<TEntryV>, var: Seq<char>, sym: SymbolV) -> int
    decreases t.len(),
{
    if t.len() == 0 {
        -1
    } else if t[0].var == var && t[0].sym == sym {
        0
    } else {
        let r = tbl_index(t.drop_first(), var, sym);
        if r < 0 {
            -1
        } else {
            r + 1
        }
    }
}

/// Store production `prod` under `(var, sym)`, replacing an existing cell.
pub open spec fn tbl_update(t: Seq<TEntryV>, var: Seq<char>, sym: SymbolV, prod: int) -> Seq<
    TEntryV,
> {
    let e = TEntryV { var, sym, prod };
    let i = tbl_index(t, var, sym);
    if i < 0 {
        t.push(e)
    } else {
        t.update(i, e)
    }
}

/// Enter one production under every terminal of its FIRST set.
pub open spec fn table_add_firsts(
    t: Seq<TEntryV>,
    left: Seq<char>,
    first: Seq<SymbolV>,
    prod: int,
) -> Seq<TEntryV>
    decreases first.len(),
{
    if first.len() == 0 {
        t
    } else {
        let t2 = match first[0] {
            SymbolV::Terminal(_) => tbl_update(t, left, first[0], prod),
            _ => t,
        };
        table_add_firsts(t2, left, first.drop_first(), prod)
    }
}

/// Enter one epsilon-deriving production under every terminal (and epsilon)
/// of its left-hand side's FOLLOW set.
pub open spec fn table_add_follows(
    t: Seq<TEntryV>,
    left: Seq<char>,
    fol: Seq<SymbolV>,
    prod: int,
) -> Seq<TEntryV>
    decreases fol.len(),
{
    if fol.len() == 0 {
        t
    } else {
        let t2 = match fol[0] {
            SymbolV::Variable(_) => t,
            _ => tbl_update(t, left, fol[0], prod),
        };
        table_add_follows(t2, left, fol.drop_first(), prod)
    }
}

/// The table cells contributed by one production.
pub open spec fn table_rule(
    t: Seq<TEntryV>,
    firsts: Seq<EntryV>,
    follows: Seq<EntryV>,
    r: ProductionV,
    prod: int,
) -> Seq<TEntryV> {
    let first = string_first(firsts, r.right);
    let t1 = table_add_firsts(t, r.left, first, prod);
    if first.contains(SymbolV::Epsilon) && has_key(follows, r.left) {
        table_add_follows(t1, r.left, lookup_val(follows, r.left), prod)
    } else {
        t1
    }
}

/// The table cells contributed by the productions from index `prod` on.
pub open spec fn table_rules(
    t: Seq<TEntryV>,
    firsts: Seq<EntryV>,
    follows: Seq<EntryV>,
    rules: Seq<ProductionV>,
    prod: int,
) -> Seq<TEntryV>
    decreases rules.len(),
{
    if rules.len() == 0 {
        t
    } else {
        table_rules(
            table_rule(t, firsts, follows, rules[0], prod),
            firsts,
            follows,
            rules.drop_first(),
            prod + 1,
        )
    }
}

/// The LL(1) parse table of a grammar, under its FIRST and FOLLOW sets.
pub open spec fn spec_table(rules: Seq<ProductionV>, start: Seq<char>) -> Seq<TEntryV> {
    table_rules(Seq::empty(), spec_firsts(rules), spec_follows(rules, start), rules, 0)
}

/// A sequence of cells with no match in its prefix indexes its first match.
proof fn lemma_tbl_index_after(t: Seq<TEntryV>, var: Seq<char>, sym: SymbolV, k: int)
    requires
        0 <= k <= t.len(),
        forall|q: int| 0 <= q < k ==> !((#[trigger] t[q]).var == var && t[q].sym == sym),
    ensures
        k < t.len() && t[k].var == var && t[k].sym == sym ==> tbl_index(t, var, sym) == k,
        k == t.len() ==> tbl_index(t, var, sym) == -1,
    decreases t.len(),
{
    if t.len() > 0 {
        if t[0].var == var && t[0].sym == sym {
        } else {
            if k > 0 {
                lemma_tbl_index_after(t.drop_first(), var, sym, k - 1);
            } else {
                lemma_tbl_index_after(t.drop_first(), var, sym, 0);
            }
        }
    }
}

/// Store a production under `(var, sym)`, executable form.
fn tbl_update_exec(t: &mut Vec<TableEntry>, var: &String, sym: &Symbol, prod: usize)
    ensures
        table_view(final(t)@) == tbl_update(table_view(old(t)@), var@, sym@, prod as int),
{
    let ghost tv = table_view(t@);
    let mut k: usize = 0;
    while k < t.len()
        invariant
            k <= t@.len(),
            tv == table_view(t@),
            tv == table_view(old(t)@),
            forall|q: int| 0 <= q < k ==> !((#[trigger] tv[q]).var == var@ && tv[q].sym == sym@),
        decreases t@.len() - k,
    {
        if t[k].var.eq(var) && sym_eq(&t[k].sym, sym) {
            proof {
                assert(tv[k as int].var == var@ && tv[k as int].sym == sym@);
                lemma_tbl_index_after(tv, var@, sym@, k as int);
            }
            let e = TableEntry { var: var.clone(), sym: dup_symbol(sym), prod };
            t[k] = e;
            proof {
                assert(table_view(t@) =~= tv.update(
                    k as int,
                    TEntryV { var: var@, sym: sym@, prod: prod as int },
                ));
            }
            return;
        }
        k = k + 1;
    }
    proof {
        lemma_tbl_index_after(tv, var@, sym@, tv.len() as int);
    }
    t.push(TableEntry { var: var.clone(), sym: dup_symbol(sym), prod });
    proof {
        assert(table_view(t@) =~= tv.push(TEntryV { var: var@, sym: sym@, prod: prod as int }));
    }
}

impl CFG {
    /// The LL(1) parse table: each production is entered under the terminals
    /// of its FIRST set, and, when that set derives epsilon, under the
    /// terminals (and epsilon) of its left-hand side's FOLLOW set. A later
    /// production replaces an earlier one in the same cell.
    pub fn get_table(&self) -> (r: Table)
        ensures
            table_view(r.0@) == spec_table(self.rules_v(), self.start@),
    {
        let ghost rv = rules_view(self.rules@);
        let firsts = self.get_firsts();
        let follows = self.get_follows();
        let ghost fv = entries_view(firsts.0@);
        let ghost folv = entries_view(follows.0@);
        let mut t: Vec<TableEntry> = Vec::new();
        proof {
            assert(rv.skip(0) =~= rv);
            assert(table_view(t@) =~= Seq::<TEntryV>::empty());
        }
        let mut j: usize = 0;
        while j < self.rules.len()
            invariant
                j <= self.rules@.len(),
                rv == rules_view(self.rules@),
                fv == entries_view(firsts.0@),
                folv == entries_view(follows.0@),
                table_rules(table_view(t@), fv, folv, rv.skip(j as int), j as int) == table_rules(
                    Seq::empty(),
                    fv,
                    folv,
                    rv,
                    0,
                ),
            decreases self.rules@.len() - j,
        {
            proof {
                assert(rv.skip(j as int)[0] == self.rules@[j as int]@);
                assert(rv.skip(j as int).drop_first() =~= rv.skip(j as int + 1));
            }
            let ghost t_rule = table_view(t@);
            let ghost leftv = self.rules@[j as int]@.left;
            let rlen = self.rules[j].right.len();
            let first = self.get_string_first(&self.rules[j].right[0..rlen], &firsts);
            proof {
                assert(syms_view(self.rules@[j as int].right@.subrange(0, rlen as int))
                    =~= self.rules@[j as int]@.right);
            }
            let ghost firstv = syms_view(first@);
            let mut k: usize = 0;
            proof {
                assert(firstv.skip(0) =~= firstv);
            }
            while k < first.len()
                invariant
                    k <= first@.len(),
                    rv == rules_view(self.rules@),
                    j < self.rules@.len(),
                    leftv == self.rules@[j as int]@.left,
                    firstv == syms_view(first@),
                    table_add_firsts(table_view(t@), leftv, firstv.skip(k as int), j as int)
                        == table_add_firsts(t_rule, leftv, firstv, j as int),
                decreases first@.len() - k,
            {
                proof {
                    assert(firstv.skip(k as int)[0] == first@[k as int]@);
                    assert(firstv.skip(k as int).drop_first() =~= firstv.skip(k as int + 1));
                }
                match &first[k] {
                    Symbol::Terminal(_) => {
                        tbl_update_exec(&mut t, &self.rules[j].left, &first[k], j);
                    },
                    _ => {},
                }
                k = k + 1;
            }
            proof {
                assert(firstv.skip(firstv.len() as int) =~= Seq::<SymbolV>::empty());
            }
            if syms_contains(&first, &Symbol::Epsilon) && has_key_exec(&follows.0, &self.rules[j].left) {
                let ghost t_fol = table_view(t@);
                proof {
                    assert(entries_view(follows.0@).skip(0) =~= entries_view(follows.0@));
                }
                let fol = lookup_exec(&follows.0, 0, &self.rules[j].left);
                let ghost folsv = syms_view(fol@);
                let mut k2: usize = 0;
                proof {
                    assert(folsv.skip(0) =~= folsv);
                }
                while k2 < fol.len()
                    invariant
                        k2 <= fol@.len(),
                        rv == rules_view(self.rules@),
                        j < self.rules@.len(),
                        leftv == self.rules@[j as int]@.left,
                        folsv == syms_view(fol@),
                        table_add_follows(table_view(t@), leftv, folsv.skip(k2 as int), j as int)
                            == table_add_follows(t_fol, leftv, folsv, j as int),
                    decreases fol@.len() - k2,
                {
                    proof {
                        assert(folsv.skip(k2 as int)[0] == fol@[k2 as int]@);
                        assert(folsv.skip(k2 as int).drop_first() =~= folsv.skip(k2 as int + 1));
                    }
                    match &fol[k2] {
                        Symbol::Variable(_) => {},
                        _ => {
                            tbl_update_exec(&mut t, &self.rules[j].left, &fol[k2], j);
                        },
                    }
                    k2 = k2 + 1;
                }
                proof {
                    assert(folsv.skip(folsv.len() as int) =~= Seq::<SymbolV>::empty());
                }
            }
            j = j + 1;
        }
        proof {
            assert(rv.skip(rv.len() as int) =~= Seq::<ProductionV>::empty());
        }
        Table(t)
    }
}

/// The production is directly left recursive: its body starts with its own
/// left-hand side.
pub open spec fn is_rec(r: ProductionV) -> bool {
    r.right.len() >= 1 && r.right[0] == SymbolV::Variable(r.left)
}

/// Some production of this variable is directly left recursive.
pub open spec fn needs_new_var(rules: Seq<ProductionV>, left: Seq<char>) -> bool {
    exists|i: int| 0 <= i < rules.len() && (#[trigger] rules[i]).left == left && is_rec(rules[i])
}

/// The fresh variable name introduced for a left-recursive variable.
pub open spec fn dollar(s: Seq<char>) -> Seq<char> {
    s.push('$')
}

/// The rewritten form of one production: a left-recursive `A => A w` becomes
/// `A$ => w A$`; any other production of a left-recursive variable gets the
/// fresh variable appended; productions of other variables are unchanged.
pub open spec fn transform(rules: Seq<ProductionV>, r: ProductionV) -> ProductionV {
    if is_rec(r) {
        ProductionV {
            left: dollar(r.left),
            right: r.right.drop_first().push(SymbolV::Variable(dollar(r.left))),
        }
    } else if needs_new_var(rules, r.left) {
        ProductionV { left: r.left, right: r.right.push(SymbolV::Variable(dollar(r.left))) }
    } else {
        r
    }
}

/// One trailing `A$ => epsilon` production per left-recursive production, in
/// order.
pub open spec fn eps_rules(rules: Seq<ProductionV>) -> Seq<ProductionV>
    decreases rules.len(),
{
    if rules.len() == 0 {
        Seq::empty()
    } else {
        eps_rules(rules.drop_last()) + if is_rec(rules.last()) {
            seq![ProductionV { left: dollar(rules.last().left), right: seq![SymbolV::Epsilon] }]
        } else {
            Seq::empty()
        }
    }
}

/// The grammar with direct left recursion removed.
pub open spec fn spec_rdlr(rules: Seq<ProductionV>) -> Seq<ProductionV> {
    Seq::new(rules.len(), |i: int| transform(rules, rules[i])) + eps_rules(rules)
}

/// Whether one production is directly left recursive, executable form.
fn is_rec_exec(r: &Production) -> (b: bool)
    ensures
        b == is_rec(r@),
{
    if r.right.len() == 0 {
        return false;
    }
    match &r.right[0] {
        Symbol::Variable(v) => {
            let b = v.eq(&r.left);
            proof {
                assert(r@.right[0] == r.right@[0]@);
            }
            b
        },
        _ => {
            proof {
                assert(r@.right[0] == r.right@[0]@);
            }
            false
        },
    }
}

/// Whether some production of this variable is directly left recursive,
/// executable form.
fn has_rec_exec(rules: &[Production], left: &String) -> (b: bool)
    ensures
        b == needs_new_var(rules_view(rules@), left@),
{
    let mut k: usize = 0;
    while k < rules.len()
        invariant
            k <= rules@.len(),
            forall|q: int|
                0 <= q < k ==> !((#[trigger] rules_view(rules@)[q]).left == left@ && is_rec(
                    rules_view(rules@)[q],
                )),
        decreases rules@.len() - k,
    {
        if rules[k].left.eq(left) && is_rec_exec(&rules[k]) {
            proof {
                assert(rules_view(rules@)[k as int] == rules@[k as int]@);
            }
            return true;
        }
        k = k + 1;
        proof {
            assert(rules_view(rules@)[k - 1 as int] == rules@[k - 1 as int]@);
        }
    }
    proof {
        if needs_new_var(rules_view(rules@), left@) {
            let q = choose|q: int|
                0 <= q < rules_view(rules@).len() && (#[trigger] rules_view(rules@)[q]).left
                    == left@ && is_rec(rules_view(rules@)[q]);
        }
    }
    false
}

/// The fresh variable name for a left-recursive variable, executable form.
fn dollar_exec(s: &String) -> (r: String)
    ensures
        r@ == dollar(s@),
{
    let mut r = s.clone();
    r.append("$");
    proof {
        reveal_strlit("$");
        assert(r@ =~= s@.push('$'));
    }
    r
}

/// Rewrite the grammar's directly left-recursive productions: each
/// `A => A w` becomes `A$ => w A$`, every other production of such an `A`
/// gets `A$` appended, and a trailing `A$ => epsilon` production is added for
/// each rewritten recursive production. (On the degenerate production
/// `A => A`, whose body is nothing but the recursion, the rewritten
/// production `A$ => A$` is itself left recursive.)
pub fn remove_direct_left_recursion(rules: &[Production]) -> (r: Vec<Production>)
    ensures
        rules_view(r@) == spec_rdlr(rules_view(rules@)),
{
    let ghost rv = rules_view(rules@);
    let mut new_rules: Vec<Production> = Vec::new();
    let mut k: usize = 0;
    while k < rules.len()
        invariant
            k <= rules@.len(),
            rv == rules_view(rules@),
            new_rules@.len() == k,
            forall|q: int|
                0 <= q < k ==> (#[trigger] new_rules@[q])@ == transform(rv, rv[q]),
        decreases rules@.len() - k,
    {
        proof {
            assert(rv[k as int] == rules@[k as int]@);
        }
        if is_rec_exec(&rules[k]) {
            let nv = dollar_exec(&rules[k].left);
            let mut right: Vec<Symbol> = Vec::new();
            let mut q: usize = 1;
            while q < rules[k].right.len()
                invariant
                    k < rules@.len(),
                    1 <= q <= rules@[k as int].right@.len() || rules@[k as int].right@.len() == 0,
                    right@.len() + 1 == q,
                    forall|w: int| 0 <= w < q - 1 ==> (#[trigger] right@[w]) == rules@[k as int].right@[w + 1],
                decreases rules@[k as int].right@.len() - q,
            {
                right.push(dup_symbol(&rules[k].right[q]));
                q = q + 1;
            }
            right.push(Symbol::Variable(nv.clone()));
            new_rules.push(Production { left: nv, right });
            proof {
                assert(is_rec(rv[k as int]));
                assert(new_rules@[k as int]@.right =~= rv[k as int].right.drop_first().push(
                    SymbolV::Variable(dollar(rv[k as int].left)),
                ));
                assert(new_rules@[k as int]@ == transform(rv, rv[k as int]));
            }
        } else {
            let mut right = dup_syms(&rules[k].right);
            if has_rec_exec(rules, &rules[k].left) {
                right.push(Symbol::Variable(dollar_exec(&rules[k].left)));
                new_rules.push(Production { left: rules[k].left.clone(), right });
                proof {
                    assert(new_rules@[k as int]@.right =~= rv[k as int].right.push(
                        SymbolV::Variable(dollar(rv[k as int].left)),
                    ));
                    assert(new_rules@[k as int]@ == transform(rv, rv[k as int]));
                }
            } else {
                new_rules.push(Production { left: rules[k].left.clone(), right });
                proof {
                    assert(new_rules@[k as int]@.right =~= rv[k as int].right);
                    assert(new_rules@[k as int]@ == transform(rv, rv[k as int]));
                }
            }
        }
        k = k + 1;
    }
    let ghost head = Seq::new(rv.len(), |i: int| transform(rv, rv[i]));
    proof {
        assert(rules_view(new_rules@) =~= head);
        assert(rv.take(0) =~= Seq::<ProductionV>::empty());
    }
    let mut k2: usize = 0;
    while k2 < rules.len()
        invariant
            k2 <= rules@.len(),
            rv == rules_view(rules@),
            head == Seq::new(rv.len(), |i: int| transform(rv, rv[i])),
            rules_view(new_rules@) == head + eps_rules(rv.take(k2 as int)),
        decreases rules@.len() - k2,
    {
        proof {
            assert(rv[k2 as int] == rules@[k2 as int]@);
            assert(rv.take(k2 as int + 1).drop_last() =~= rv.take(k2 as int));
            assert(rv.take(k2 as int + 1).last() == rv[k2 as int]);
        }
        if is_rec_exec(&rules[k2]) {
            let ghost pre = rules_view(new_rules@);
            let mut right: Vec<Symbol> = Vec::new();
            right.push(Symbol::Epsilon);
            new_rules.push(Production { left: dollar_exec(&rules[k2].left), right });
            proof {
                assert(new_rules@[new_rules@.len() - 1]@.right =~= seq![SymbolV::Epsilon]);
                assert(new_rules@[new_rules@.len() - 1]@ == ProductionV {
                    left: dollar(rv[k2 as int].left),
                    right: seq![SymbolV::Epsilon],
                });
                assert(rules_view(new_rules@) =~= pre.push(
                    ProductionV { left: dollar(rv[k2 as int].left), right: seq![SymbolV::Epsilon] },
                ));
                assert(rules_view(new_rules@) =~= head + eps_rules(rv.take(k2 as int + 1)));
            }
        } else {
            proof {
                assert(eps_rules(rv.take(k2 as int + 1)) =~= eps_rules(rv.take(k2 as int)));
            }
        }
        k2 = k2 + 1;
    }
    proof {
        assert(rv.take(rv.len() as int) =~= rv);
    }
    new_rules
}

/// The printed name of a symbol: its text, or `#` for epsilon.
pub open spec fn sym_name(x: SymbolV) -> Seq<char> {
    match x {
        SymbolV::Variable(v) => v,
        SymbolV::Terminal(t) => t,
        SymbolV::Epsilon => seq!['#'],
    }
}

/// One printed production: `left => right`, symbols separated by spaces.
pub open spec fn spec_production_line(p: ProductionV) -> Seq<char> {
    p.left + seq![' ', '=', '>', ' '] + spec_join(
        p.right.map_values(|x: SymbolV| sym_name(x)),
        seq![' '],
    )
}

/// One printed keyed set: `key: { v1, v2 }` and a line break.
pub open spec fn spec_set_line(e: EntryV) -> Seq<char> {
    e.key + seq![':', ' ', '{', ' '] + spec_join(
        e.val.map_values(|x: SymbolV| sym_name(x)),
        seq![',', ' '],
    ) + seq![' ', '}', '\n']
}

/// The printed keyed sets from index `i` on.
pub open spec fn spec_set_lines(m: Seq<EntryV>, i: int) -> Seq<char>
    decreases m.len() - i,
{
    if i < 0 || i >= m.len() {
        Seq::empty()
    } else {
        spec_set_line(m[i]) + spec_set_lines(m, i + 1)
    }
}

/// One printed table cell: `( var, sym ): production` and a line break.
pub open spec fn spec_table_line(e: TEntryV, rules: Seq<ProductionV>) -> Seq<char> {
    seq!['(', ' '] + e.var + seq![',', ' '] + sym_name(e.sym) + seq![' ', ')', ':', ' ']
        + spec_production_line(rules[e.prod]) + seq!['\n']
}

/// The printed table cells from index `i` on.
pub open spec fn spec_table_lines(t: Seq<TEntryV>, rules: Seq<ProductionV>, i: int) -> Seq<char>
    decreases t.len() - i,
{
    if i < 0 || i >= t.len() {
        Seq::empty()
    } else {
        spec_table_line(t[i], rules) + spec_table_lines(t, rules, i + 1)
    }
}

/// Append the printed name of a symbol.
fn push_sym(s: &mut String, x: &Symbol)
    ensures
        final(s)@ == old(s)@ + sym_name(x@),
{
    match x {
        Symbol::Variable(v) => {
            s.append(v.as_str());
        },
        Symbol::Terminal(t) => {
            s.append(t.as_str());
        },
        Symbol::Epsilon => {
            proof {
                reveal_strlit("#");
            }
            s.append("#");
            proof {
                assert(old(s)@ + "#"@ =~= old(s)@ + seq!['#']);
            }
        },
    }
}

/// Append the symbols joined by the separator.
fn push_syms_joined(s: &mut String, syms: &Vec<Symbol>, sep: &str)
    ensures
        final(s)@ == old(s)@ + spec_join(
            syms_view(syms@).map_values(|x: SymbolV| sym_name(x)),
            sep@,
        ),
{
    let ghost base = s@;
    proof {
        assert(syms_view(syms@.take(0)).map_values(|x: SymbolV| sym_name(x)) =~= Seq::<
            Seq<char>,
        >::empty());
    }
    let mut k: usize = 0;
    while k < syms.len()
        invariant
            k <= syms@.len(),
            s@ == base + spec_join(
                syms_view(syms@.take(k as int)).map_values(|x: SymbolV| sym_name(x)),
                sep@,
            ),
        decreases syms@.len() - k,
    {
        let ghost base2 = base;
        let ghost pieces = syms_view(syms@.take(k as int)).map_values(|x: SymbolV| sym_name(x));
        if k > 0 {
            s.append(sep);
        }
        push_sym(s, &syms[k]);
        k = k + 1;
        proof {
            lemma_join_push(pieces, sym_name(syms@[k - 1]@), sep@);
            assert(syms_view(syms@.take(k as int)).map_values(|x: SymbolV| sym_name(x))
                =~= pieces.push(sym_name(syms@[k - 1]@)));
            if pieces.len() == 0 {
                assert(s@ =~= base2 + spec_join(pieces.push(sym_name(syms@[k - 1]@)), sep@));
            } else {
                assert(s@ =~= base2 + spec_join(pieces.push(sym_name(syms@[k - 1]@)), sep@));
            }
        }
    }
    proof {
        assert(syms@.take(syms@.len() as int) =~= syms@);
    }
}

impl Production {
    /// The printed form of the production: `left => right`, the body's
    /// symbols separated by spaces and epsilon written `#`.
    pub fn render(&self) -> (r: String)
        ensures
            r@ == spec_production_line(self@),
    {
        let mut s = String::new();
        s.append(self.left.as_str());
        proof {
            reveal_strlit(" => ");
        }
        s.append(" => ");
        proof {
            assert(s@ =~= self.left@ + seq![' ', '=', '>', ' ']);
        }
        proof {
            reveal_strlit(" ");
            assert(" "@ =~= seq![' ']);
        }
        push_syms_joined(&mut s, &self.right, " ");
        proof {
            assert(s@ =~= spec_production_line(self@));
        }
        s
    }
}

impl Sets {
    /// The printed form of the sets: one `key: { v1, v2 }` line per entry, in
    /// entry order.
    pub fn render(&self) -> (r: String)
        ensures
            r@ == spec_set_lines(entries_view(self.0@), 0),
    {
        let ghost m = entries_view(self.0@);
        let mut s = String::new();
        proof {
            assert(s@ + spec_set_lines(m, 0) =~= spec_set_lines(m, 0));
        }
        let mut i: usize = 0;
        while i < self.0.len()
            invariant
                i <= self.0@.len(),
                m == entries_view(self.0@),
                s@ + spec_set_lines(m, i as int) == spec_set_lines(m, 0),
            decreases self.0@.len() - i,
        {
            let ghost line_start = s@;
            s.append(self.0[i].key.as_str());
            proof {
                reveal_strlit(": { ");
                reveal_strlit(" }\n");
                reveal_strlit(", ");
            }
            s.append(": { ");
            proof {
                assert(s@ =~= line_start + m[i as int].key + seq![':', ' ', '{', ' ']);
            }
            proof {
                assert(", "@ =~= seq![',', ' ']);
            }
            push_syms_joined(&mut s, &self.0[i].val, ", ");
            s.append(" }\n");
            i = i + 1;
            proof {
                assert(s@ =~= line_start + spec_set_line(m[i - 1 as int]));
                assert(s@ + spec_set_lines(m, i as int) =~= line_start + spec_set_lines(
                    m,
                    i - 1 as int,
                ));
            }
        }
        proof {
            assert(spec_set_lines(m, i as int) =~= Seq::<char>::empty());
            assert(s@ + Seq::<char>::empty() =~= s@);
        }
        s
    }
}

impl Table {
    /// The printed form of the table: one `( var, sym ): production` line per
    /// cell, in cell order, resolving each cell's production index against
    /// the grammar's rule list.
    pub fn render(&self, rules: &Vec<Production>) -> (r: String)
        requires
            forall|k: int|
                0 <= k < self.0@.len() ==> (#[trigger] self.0@[k]).prod < rules@.len(),
        ensures
            r@ == spec_table_lines(table_view(self.0@), rules_view(rules@), 0),
    {
        let ghost t = table_view(self.0@);
        let ghost rv = rules_view(rules@);
        let mut s = String::new();
        proof {
            assert(s@ + spec_table_lines(t, rv, 0) =~= spec_table_lines(t, rv, 0));
        }
        let mut i: usize = 0;
        while i < self.0.len()
            invariant
                i <= self.0@.len(),
                t == table_view(self.0@),
                rv == rules_view(rules@),
                forall|k: int| 0 <= k < self.0@.len() ==> (#[trigger] self.0@[k]).prod < rules@.len(),
                s@ + spec_table_lines(t, rv, i as int) == spec_table_lines(t, rv, 0),
            decreases self.0@.len() - i,
        {
            let ghost line_start = s@;
            proof {
                reveal_strlit("( ");
                reveal_strlit(", ");
                reveal_strlit(" ): ");
                reveal_strlit("\n");
            }
            s.append("( ");
            s.append(self.0[i].var.as_str());
            s.append(", ");
            proof {
                assert(s@ =~= line_start + seq!['(', ' '] + t[i as int].var + seq![',', ' ']);
            }
            push_sym(&mut s, &self.0[i].sym);
            s.append(" ): ");
            let line = rules[self.0[i].prod].render();
            s.append(line.as_str());
            s.append("\n");
            i = i + 1;
            proof {
                assert(rv[t[i - 1 as int].prod] == rules@[self.0@[i - 1 as int].prod as int]@);
                assert(s@ =~= line_start + spec_table_line(t[i - 1 as int], rv));
                assert(s@ + spec_table_lines(t, rv, i as int) =~= line_start + spec_table_lines(
                    t,
                    rv,
                    i - 1 as int,
                ));
            }
        }
        proof {
            assert(spec_table_lines(t, rv, i as int) =~= Seq::<char>::empty());
            assert(s@ + Seq::<char>::empty() =~= s@);
        }
        s
    }
}

} // verus!
