//! The deterministic finite automaton produced by subset construction: a pure
//! data holder for the finished transition table, plus a diagnostic rendering.

use vstd::prelude::*;
use vstd::string::*;
use crate::text::{spec_dec, spec_join, lemma_join_push, push_char, push_dec};

verus! {

/// A DFA over the observed alphabet `accepts` (one table column per
/// character). `table[i][k]` is the successor of state `i` on character
/// `accepts[k]`; `None` means reject (absence of a transition, not a trap
/// state). `start` is the initial state and `out` lists the accepting states.
#[derive(Debug)]
pub struct DFA {
    pub accepts: Vec<char>,
    pub table: Vec<Vec<Option<usize>>>,
    pub start: usize,
    pub out: Vec<usize>,
}

/// The list holds the state id.
pub open spec fn lists_state(out: Seq<usize>, i: int) -> bool {
    exists|k: int| 0 <= k < out.len() && (#[trigger] out[k]) as int == i
}

/// The row marker: an arrow for the start state, a star for an accepting one.
pub open spec fn spec_marker(i: int, start: usize, out: Seq<usize>) -> Seq<char> {
    if i == start as int && lists_state(out, i) {
        seq!['-', '>', '*']
    } else if i == start as int {
        seq!['-', '>', ' ']
    } else if lists_state(out, i) {
        seq![' ', ' ', '*']
    } else {
        seq![' ', ' ', ' ']
    }
}

/// One table cell: the successor state in decimal, or a slash for reject.
pub open spec fn spec_cell(e: Option<usize>) -> Seq<char> {
    match e {
        Some(c) => spec_dec(c as nat),
        None => seq!['/'],
    }
}

/// The cells of one row.
pub open spec fn spec_cells(row: Seq<Option<usize>>) -> Seq<Seq<char>> {
    row.map_values(|e: Option<usize>| spec_cell(e))
}

/// One rendered row: marker, state id, and the joined cells.
pub open spec fn spec_row(row: Seq<Option<usize>>, i: int, start: usize, out: Seq<usize>) -> Seq<
    char,
> {
    spec_marker(i, start, out) + spec_dec(i as nat) + seq![' ', '|', ' '] + spec_join(
        spec_cells(row),
        seq![' ', '|', ' '],
    ) + seq!['\n']
}

/// The rendered rows from index `i` on.
pub open spec fn spec_rows(
    table: Seq<Seq<Option<usize>>>,
    start: usize,
    out: Seq<usize>,
    i: int,
) -> Seq<char>
    decreases table.len() - i,
{
    if i < 0 || i >= table.len() {
        Seq::empty()
    } else {
        spec_row(table[i], i, start, out) + spec_rows(table, start, out, i + 1)
    }
}

/// The header line: the alphabet, one column per character.
pub open spec fn spec_header(accepts: Seq<char>) -> Seq<char> {
    seq!['D', 'F', 'A', ' ', ' ', '|', ' '] + spec_join(
        accepts.map_values(|c: char| seq![c]),
        seq![' ', '|', ' '],
    ) + seq!['\n']
}

/// The stable textual dump of a DFA: a header naming the alphabet columns,
/// then one line per state with its transitions.
pub open spec fn spec_render(
    accepts: Seq<char>,
    table: Seq<Seq<Option<usize>>>,
    start: usize,
    out: Seq<usize>,
) -> Seq<char> {
    spec_header(accepts) + spec_rows(table, start, out, 0)
}

/// Whether the list holds the state id.
fn lists_state_exec(out: &Vec<usize>, x: usize) -> (r: bool)
    ensures
        r == lists_state(out@, x as int),
{
    let mut k: usize = 0;
    while k < out.len()
        invariant
            k <= out@.len(),
            forall|q: int| 0 <= q < k ==> (#[trigger] out@[q]) != x,
        decreases out@.len() - k,
    {
        if out[k] == x {
            proof {
                assert(out@[k as int] as int == x as int);
            }
            return true;
        }
        k = k + 1;
    }
    proof {
        if lists_state(out@, x as int) {
            let q = choose|q: int| 0 <= q < out@.len() && (out@[q]) as int == x as int;
        }
    }
    false
}

impl DFA {
    /// The transition table as mathematical values.
    pub open spec fn table_v(&self) -> Seq<Seq<Option<usize>>> {
        self.table@.map_values(|row: Vec<Option<usize>>| row@)
    }

    /// The stable textual dump of the automaton, for tracing: a header naming
    /// the alphabet columns, then one line per state, marked with an arrow
    /// for the start state and a star for each accepting state, giving the
    /// successor per column or a slash where the automaton rejects.
    pub fn render(&self) -> (r: String)
        ensures
            r@ == spec_render(self.accepts@, self.table_v(), self.start, self.out@),
    {
        let ghost sep = seq![' ', '|', ' '];
        let mut s = String::new();
        proof {
            reveal_strlit("DFA  | ");
            reveal_strlit(" | ");
            reveal_strlit("\n");
            reveal_strlit("/");
        }
        s.append("DFA  | ");
        proof {
            assert(s@ =~= seq!['D', 'F', 'A', ' ', ' ', '|', ' ']);
            assert(self.accepts@.take(0).map_values(|c: char| seq![c]) =~= Seq::<Seq<char>>::empty());
        }
        let mut k: usize = 0;
        while k < self.accepts.len()
            invariant
                k <= self.accepts@.len(),
                s@ == seq!['D', 'F', 'A', ' ', ' ', '|', ' '] + spec_join(
                    self.accepts@.take(k as int).map_values(|c: char| seq![c]),
                    seq![' ', '|', ' '],
                ),
            decreases self.accepts@.len() - k,
        {
            let ghost pieces = self.accepts@.take(k as int).map_values(|c: char| seq![c]);
            proof {
                reveal_strlit(" | ");
            }
            if k > 0 {
                s.append(" | ");
            }
            push_char(&mut s, self.accepts[k]);
            k = k + 1;
            proof {
                lemma_join_push(pieces, seq![self.accepts@[k - 1]], seq![' ', '|', ' ']);
                assert(self.accepts@.take(k as int).map_values(|c: char| seq![c]) =~= pieces.push(
                    seq![self.accepts@[k - 1]],
                ));
                if pieces.len() == 0 {
                    assert(spec_join(pieces, seq![' ', '|', ' ']) =~= Seq::<char>::empty());
                    assert(spec_join(pieces.push(seq![self.accepts@[k - 1]]), seq![' ', '|', ' '])
                        =~= seq![self.accepts@[k - 1]]);
                    assert(s@ =~= seq!['D', 'F', 'A', ' ', ' ', '|', ' '] + spec_join(
                        pieces.push(seq![self.accepts@[k - 1]]),
                        seq![' ', '|', ' '],
                    ));
                } else {
                    assert(s@ =~= seq!['D', 'F', 'A', ' ', ' ', '|', ' '] + spec_join(
                        pieces.push(seq![self.accepts@[k - 1]]),
                        seq![' ', '|', ' '],
                    ));
                }
            }
        }
        s.append("\n");
        proof {
            assert(self.accepts@.take(self.accepts@.len() as int) =~= self.accepts@);
            assert(s@ =~= spec_header(self.accepts@));
            assert(s@ + spec_rows(self.table_v(), self.start, self.out@, 0) =~= spec_render(
                self.accepts@,
                self.table_v(),
                self.start,
                self.out@,
            ));
        }
        let mut i: usize = 0;
        while i < self.table.len()
            invariant
                i <= self.table@.len(),
                s@ + spec_rows(self.table_v(), self.start, self.out@, i as int) == spec_render(
                    self.accepts@,
                    self.table_v(),
                    self.start,
                    self.out@,
                ),
            decreases self.table@.len() - i,
        {
            let ghost row_start = s@;
            push_row(&mut s, &self.table[i], i, self.start, &self.out);
            i = i + 1;
            proof {
                assert(self.table_v()[i - 1 as int] == self.table@[i - 1 as int]@);
                assert(s@ + spec_rows(self.table_v(), self.start, self.out@, i as int) =~= row_start
                    + spec_rows(self.table_v(), self.start, self.out@, i - 1 as int));
            }
        }
        proof {
            assert(spec_rows(self.table_v(), self.start, self.out@, i as int) =~= Seq::<
                char,
            >::empty());
            assert(s@ + Seq::<char>::empty() =~= s@);
        }
        s
    }
}

/// Append one rendered table row.
fn push_row(s: &mut String, row: &Vec<Option<usize>>, i: usize, start: usize, out: &Vec<usize>)
    ensures
        final(s)@ == old(s)@ + spec_row(row@, i as int, start, out@),
{
    proof {
        reveal_strlit("->*");
        reveal_strlit("-> ");
        reveal_strlit("  *");
        reveal_strlit("   ");
        reveal_strlit(" | ");
        reveal_strlit("\n");
    }
    let ghost row_start = s@;
    let is_out = lists_state_exec(out, i);
    if i == start && is_out {
        s.append("->*");
    } else if i == start {
        s.append("-> ");
    } else if is_out {
        s.append("  *");
    } else {
        s.append("   ");
    }
    proof {
        assert(s@ =~= row_start + spec_marker(i as int, start, out@));
    }
    push_dec(s, i);
    s.append(" | ");
    let ghost cells_start = s@;
    proof {
        assert(cells_start =~= row_start + spec_marker(i as int, start, out@) + spec_dec(i as nat)
            + seq![' ', '|', ' ']);
        assert(row@.take(0).map_values(|e: Option<usize>| spec_cell(e)) =~= Seq::<
            Seq<char>,
        >::empty());
    }
    let cols = row.len();
    let mut k2: usize = 0;
    while k2 < cols
        invariant
            k2 <= cols,
            cols == row@.len(),
            s@ == cells_start + spec_join(
                row@.take(k2 as int).map_values(|e: Option<usize>| spec_cell(e)),
                seq![' ', '|', ' '],
            ),
        decreases cols - k2,
    {
        proof {
            reveal_strlit(" | ");
            reveal_strlit("/");
        }
        let ghost pieces = row@.take(k2 as int).map_values(|e: Option<usize>| spec_cell(e));
        if k2 > 0 {
            s.append(" | ");
        }
        match row[k2] {
            Some(c) => {
                push_dec(s, c);
            },
            None => {
                s.append("/");
            },
        }
        k2 = k2 + 1;
        proof {
            let e = row@[k2 - 1];
            lemma_join_push(pieces, spec_cell(e), seq![' ', '|', ' ']);
            assert(row@.take(k2 as int).map_values(|e: Option<usize>| spec_cell(e)) =~= pieces.push(
                spec_cell(e),
            ));
            match e {
                Some(c) => {
                    assert(s@ =~= cells_start + spec_join(
                        pieces.push(spec_cell(e)),
                        seq![' ', '|', ' '],
                    ));
                },
                None => {
                    assert(s@ =~= cells_start + spec_join(
                        pieces.push(spec_cell(e)),
                        seq![' ', '|', ' '],
                    ));
                },
            }
        }
    }
    s.append("\n");
    proof {
        assert(row@.take(cols as int) =~= row@);
        assert(spec_cells(row@) =~= row@.take(cols as int).map_values(
            |e: Option<usize>| spec_cell(e),
        ));
        assert(s@ =~= row_start + spec_row(row@, i as int, start, out@));
    }
}

} // verus!
