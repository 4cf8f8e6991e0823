//! Rendering an automaton as a transition table (CSV) and as a graph
//! (DOT), over the alphabet in sorted order and the states in ascending
//! id order.

use vstd::prelude::*;

verus! {

use crate::dfa::Dfa;
use crate::dfa::Transitable;
use crate::dfa::Transition;
use crate::digits::dec_digits;
use crate::digits::push_dec;

/// `q` lists the alphabet of `a`, each symbol once, in `leq` order.
pub open spec fn sorted_syms<T: Transitable>(a: Dfa<T>, q: Seq<T>) -> bool {
    &&& forall|i: int, j: int|
        0 <= i < j < q.len() ==> (#[trigger] q[i]).leq(#[trigger] q[j]) && q[i] != q[j]
    &&& forall|x: T| #[trigger] q.contains(x) <==> a.alpha_has(x)
}

/// The destinations written in one table cell: `<d>` for each edge of
/// `es` in order.
pub open spec fn cell_dests<T: Transitable>(es: Seq<Transition<T>>) -> Seq<char>
    decreases es.len(),
{
    if es.len() == 0 {
        Seq::empty()
    } else {
        cell_dests(es.drop_last()) + seq!['<'] + dec_digits(es.last().1 as nat) + seq!['>']
    }
}

/// One table cell: a comma, then the destinations on `x`, or `,-` when
/// there are none.
pub open spec fn csv_cell<T: Transitable>(a: Dfa<T>, s: int, x: T) -> Seq<char> {
    let es = a.edges_at(s).filter(|t: Transition<T>| t.0 == x);
    if es.len() == 0 {
        seq![',', '-']
    } else {
        seq![','] + cell_dests(es)
    }
}

/// The cells of one row, over the symbols of `q` in order.
pub open spec fn csv_cells<T: Transitable>(a: Dfa<T>, s: int, q: Seq<T>) -> Seq<char>
    decreases q.len(),
{
    if q.len() == 0 {
        Seq::empty()
    } else {
        csv_cells(a, s, q.drop_last()) + csv_cell(a, s, q.last())
    }
}

/// One table row: `->` for the initial state, `*` for an accepting one,
/// the id in angle brackets, the cells, and a newline.
pub open spec fn csv_row<T: Transitable>(a: Dfa<T>, s: int, q: Seq<T>) -> Seq<char> {
    (if s == a.initial_id() {
        seq!['-', '>']
    } else {
        Seq::empty()
    }) + (if a.accepting(s) {
        seq!['*']
    } else {
        Seq::empty()
    }) + seq!['<'] + dec_digits(s as nat) + seq!['>'] + csv_cells(a, s, q) + seq!['\n']
}

/// The rows for the states of `ids`, in order.
pub open spec fn csv_rows<T: Transitable>(a: Dfa<T>, ids: Seq<int>, q: Seq<T>) -> Seq<char>
    decreases ids.len(),
{
    if ids.len() == 0 {
        Seq::empty()
    } else {
        csv_rows(a, ids.drop_last(), q) + csv_row(a, ids.last(), q)
    }
}

/// The header: `State`, a comma and the symbol for each column, and a
/// newline.
pub open spec fn csv_header<T: Transitable>(q: Seq<T>) -> Seq<char>
    decreases q.len(),
{
    if q.len() == 0 {
        seq!['S', 't', 'a', 't', 'e']
    } else {
        csv_header(q.drop_last()) + seq![','] + q.last().rendered()
    }
}

/// The whole table over the sorted symbols `q`.
pub open spec fn csv_spec<T: Transitable>(a: Dfa<T>, q: Seq<T>) -> Seq<char> {
    csv_header(q) + seq!['\n'] + csv_rows(a, a.live_ids(), q)
}

/// One graph line for an accepting state: `<id> [shape=doublecircle];`.
pub open spec fn dot_accept_line(s: int) -> Seq<char> {
    dec_digits(s as nat) + seq![' ', '[', 's', 'h', 'a', 'p', 'e', '=', 'd', 'o', 'u', 'b', 'l', 'e', 'c', 'i', 'r', 'c', 'l', 'e', ']', ';', '\n']
}

/// The destination list `{d1,d2}` of one graph edge line.
pub open spec fn dot_dests<T: Transitable>(es: Seq<Transition<T>>) -> Seq<char>
    decreases es.len(),
{
    if es.len() == 0 {
        Seq::empty()
    } else if es.len() == 1 {
        dec_digits(es.last().1 as nat)
    } else {
        dot_dests(es.drop_last()) + seq![','] + dec_digits(es.last().1 as nat)
    }
}

/// One graph edge line: `s -> {dests} [label=x];`, or nothing when `s`
/// has no edge on `x`.
pub open spec fn dot_edge_line<T: Transitable>(a: Dfa<T>, s: int, x: T) -> Seq<char> {
    let es = a.edges_at(s).filter(|t: Transition<T>| t.0 == x);
    if es.len() == 0 {
        Seq::empty()
    } else {
        dec_digits(s as nat) + seq![' ', '-', '>', ' ', '{'] + dot_dests(es) + seq!['}', ' ', '[', 'l', 'a', 'b', 'e', 'l', '='] + x.rendered() + seq![']', ';', '\n']
    }
}

/// The edge lines of one state over the symbols of `q`, in order.
pub open spec fn dot_edge_lines<T: Transitable>(a: Dfa<T>, s: int, q: Seq<T>) -> Seq<char>
    decreases q.len(),
{
    if q.len() == 0 {
        Seq::empty()
    } else {
        dot_edge_lines(a, s, q.drop_last()) + dot_edge_line(a, s, q.last())
    }
}

/// The lines of one state: its accepting mark, then its edges.
pub open spec fn dot_state<T: Transitable>(a: Dfa<T>, s: int, q: Seq<T>) -> Seq<char> {
    (if a.accepting(s) {
        dot_accept_line(s)
    } else {
        Seq::empty()
    }) + dot_edge_lines(a, s, q)
}

/// The state blocks for `ids`, in order.
pub open spec fn dot_states<T: Transitable>(a: Dfa<T>, ids: Seq<int>, q: Seq<T>) -> Seq<char>
    decreases ids.len(),
{
    if ids.len() == 0 {
        Seq::empty()
    } else {
        dot_states(a, ids.drop_last(), q) + dot_state(a, ids.last(), q)
    }
}

/// The whole graph over the sorted symbols `q`.
pub open spec fn dot_spec<T: Transitable>(a: Dfa<T>, q: Seq<T>) -> Seq<char> {
    seq!['d', 'i', 'g', 'r', 'a', 'p', 'h', ' ', 'F', 'A', ' ', '{', '\n', 'r', 'a', 'n', 'k', 'd', 'i', 'r', '=', '"', 'L', 'R', '"', ';', '\n'] + dot_states(a, a.live_ids(), q) + seq!['}', '\n']
}

/// The alphabet in `leq` order.
fn sort_syms<T: Transitable>(a: &Dfa<T>) -> (r: Vec<T>)
    requires
        a.wf(),
    ensures
        sorted_syms(*a, r@),
{
    let v = a.clone_alphabet();
    let mut r: Vec<T> = Vec::new();
    let n = v.len();
    for k in 0..n
        invariant
            n == v@.len(),
            v@ == a.alpha_sq(),
            a.wf(),
            forall|i: int, j: int|
                0 <= i < j < r@.len() ==> (#[trigger] r@[i]).leq(#[trigger] r@[j]) && r@[i]
                    != r@[j],
            forall|x: T| #[trigger] r@.contains(x) <==> v@.subrange(0, k as int).contains(x),
    {
        let x = v[k].dup();
        proof {
            assert(!r@.contains(x)) by {
                if r@.contains(x) {
                    assert(v@.subrange(0, k as int).contains(x));
                    let i = choose|i: int|
                        0 <= i < k && #[trigger] v@.subrange(0, k as int)[i] == x;
                    assert(a.alpha_sq()[i] == a.alpha_sq()[k as int]);
                }
            }
        }
        let mut pos: usize = 0;
        while pos < r.len() && r[pos].sym_le(&x)
            invariant
                pos <= r@.len(),
                forall|i: int| 0 <= i < pos ==> (#[trigger] r@[i]).leq(x),
            decreases r@.len() - pos,
        {
            pos = pos + 1;
        }
        let ghost r0 = r@;
        r.insert(pos, x);
        proof {
            assert(r@ == r0.insert(pos as int, x));
            if (pos as int) < r0.len() {
                assert(!r0[pos as int].leq(x));
            }
            assert forall|i: int, j: int|
                0 <= i < j < r@.len() implies (#[trigger] r@[i]).leq(#[trigger] r@[j]) && r@[i]
                != r@[j] by {
                let gi = if i < pos as int {
                    r0[i]
                } else if i == pos as int {
                    x
                } else {
                    r0[i - 1]
                };
                assert(r@[i] == gi);
                let gj = if j < pos as int {
                    r0[j]
                } else if j == pos as int {
                    x
                } else {
                    r0[j - 1]
                };
                assert(r@[j] == gj);
                if j < pos as int || (i > pos as int) {
                    assert(r0[if i < pos as int {
                        i
                    } else {
                        i - 1
                    }].leq(r0[if j < pos as int {
                        j
                    } else {
                        j - 1
                    }]));
                } else if i < pos as int && j == pos as int {
                    assert(r0[i].leq(x));
                    if r0[i] == x {
                        assert(r0.contains(x));
                    }
                } else if i < pos as int && j > pos as int {
                    assert(r0[i].leq(r0[j - 1]));
                } else if i == pos as int && j > pos as int {
                    assert(!r0[pos as int].leq(x));
                    T::leq_laws(x, r0[pos as int], r0[j - 1]);
                    if j - 1 > pos as int {
                        assert(r0[pos as int].leq(r0[j - 1]));
                    }
                    assert(x.leq(r0[j - 1]));
                    if x == r0[j - 1] {
                        assert(r0.contains(x));
                    }
                }
            }
            assert forall|y: T| #[trigger]
                r@.contains(y) <==> v@.subrange(0, k + 1).contains(y) by {
                assert(v@.subrange(0, k + 1) =~= v@.subrange(0, k as int).push(v@[k as int]));
                if r@.contains(y) {
                    let i = choose|i: int| 0 <= i < r@.len() && r@[i] == y;
                    if i == pos as int {
                        assert(v@.subrange(0, k + 1)[k as int] == y);
                    } else {
                        let i0 = if i < pos as int {
                            i
                        } else {
                            i - 1
                        };
                        assert(r0[i0] == y);
                        assert(r0.contains(y));
                        assert(v@.subrange(0, k as int).contains(y));
                        let i2 = choose|i2: int|
                            0 <= i2 < k && #[trigger] v@.subrange(0, k as int)[i2] == y;
                        assert(v@.subrange(0, k + 1)[i2] == y);
                    }
                }
                if v@.subrange(0, k + 1).contains(y) {
                    let i = choose|i: int|
                        0 <= i < k + 1 && #[trigger] v@.subrange(0, k + 1)[i] == y;
                    if i == k as int {
                        assert(y == x);
                        assert(r@[pos as int] == x);
                    } else {
                        assert(v@.subrange(0, k as int)[i] == y);
                        assert(r0.contains(y));
                        let i2 = choose|i2: int| 0 <= i2 < r0.len() && r0[i2] == y;
                        if i2 < pos as int {
                            assert(r@[i2] == y);
                        } else {
                            assert(r@[i2 + 1] == y);
                        }
                    }
                }
            }
        }
    }
    proof {
        assert(v@.subrange(0, n as int) =~= v@);
        assert forall|x: T| #[trigger] r@.contains(x) <==> a.alpha_has(x) by {
            if r@.contains(x) {
                assert(v@.contains(x));
            }
            if a.alpha_has(x) {
                assert(v@.contains(x));
            }
        }
    }
    r
}

impl<T: Transitable> Dfa<T> {
    /// Append the cell for `(s, x)` to `out`.
    fn push_cell(&self, s: usize, x: &T, out: &mut Vec<char>)
        requires
            self.wf(),
        ensures
            final(out)@ == old(out)@ + csv_cell(*self, s as int, *x),
    {
        let ghost xv = *x;
        let ghost pick = (|t: Transition<T>| t.0 == xv);
        let m = self.edge_count(s);
        let mut any = false;
        let ghost base = out@;
        for j in 0..m
            invariant
                self.wf(),
                xv == *x,
                pick == (|t: Transition<T>| t.0 == xv),
                m == self.edges_at(s as int).len(),
                any == (self.edges_at(s as int).subrange(0, j as int).filter(pick).len() > 0),
                out@ == base + (if any {
                    seq![','] + cell_dests(
                        self.edges_at(s as int).subrange(0, j as int).filter(pick),
                    )
                } else {
                    Seq::<char>::empty()
                }),
        {
            let ghost ed = self.edges_at(s as int);
            proof {
                crate::seq_facts::lemma_filter_push(ed.subrange(0, j as int), ed[j as int], pick);
                assert(ed.subrange(0, j + 1) =~= ed.subrange(0, j as int).push(ed[j as int]));
            }
            let (esym, edst) = self.edge_at(s, j);
            if esym.sym_eq(x) {
                if !any {
                    out.push(',');
                    any = true;
                }
                out.push('<');
                push_dec(edst, out);
                out.push('>');
                proof {
                    let fl0 = ed.subrange(0, j as int).filter(pick);
                    let fl1 = ed.subrange(0, j + 1).filter(pick);
                    assert(fl1 == fl0 + seq![ed[j as int]]);
                    assert(fl1.len() > 0);
                    assert(fl1.drop_last() =~= fl0);
                    assert(fl1.last() == ed[j as int]);
                    assert(cell_dests(fl1) == cell_dests(fl0) + seq!['<'] + dec_digits(
                        ed[j as int].1 as nat,
                    ) + seq!['>']);
                    assert(out@ =~= base + seq![','] + cell_dests(fl1));
                }
            } else {
                proof {
                    let fl0 = ed.subrange(0, j as int).filter(pick);
                    let fl1 = ed.subrange(0, j + 1).filter(pick);
                    assert(fl1 == fl0 + Seq::<Transition<T>>::empty());
                    assert(fl1 =~= fl0);
                }
            }
        }
        if !any {
            out.push(',');
            out.push('-');
        }
        proof {
            let ed = self.edges_at(s as int);
            assert(ed.subrange(0, m as int) =~= ed);
            if any {
                assert(out@ =~= base + csv_cell(*self, s as int, xv));
            } else {
                assert(out@ =~= base + csv_cell(*self, s as int, xv));
            }
        }
    }

    /// The state-transition table: a header with the alphabet in sorted
    /// order, then one row per state in ascending id order, marking the
    /// initial state with `->` and accepting states with `*`.
    #[verifier::rlimit(80)]
    pub fn to_csv(&self) -> (r: String)
        requires
            self.wf(),
        ensures
            exists|q: Seq<T>| #[trigger] sorted_syms(*self, q) && r@ == csv_spec(*self, q),
    {
        let alpha = sort_syms(self);
        let ghost q = alpha@;
        let mut out: Vec<char> = Vec::new();
        out.push('S');
        out.push('t');
        out.push('a');
        out.push('t');
        out.push('e');
        let al = alpha.len();
        proof {
            assert(out@ =~= csv_header(q.subrange(0, 0)));
        }
        for k in 0..al
            invariant
                self.wf(),
                al == q.len(),
                q == alpha@,
                sorted_syms(*self, q),
                out@ == csv_header(q.subrange(0, k as int)),
        {
            out.push(',');
            let mut sym = alpha[k].render();
            out.append(&mut sym);
            proof {
                assert(q.subrange(0, k + 1) =~= q.subrange(0, k as int).push(q[k as int]));
                assert(q.subrange(0, k + 1).drop_last() =~= q.subrange(0, k as int));
                assert(out@ =~= csv_header(q.subrange(0, k + 1)));
            }
        }
        proof {
            assert(q.subrange(0, al as int) =~= q);
        }
        out.push('\n');
        let ghost hdr = out@;
        let n = self.state_slot_count();
        let ini = self.initial();
        for s in 0..n
            invariant
                self.wf(),
                al == q.len(),
                q == alpha@,
                sorted_syms(*self, q),
                n == self.n_slots(),
                ini as int == self.initial_id(),
                hdr == csv_header(q) + seq!['\n'],
                out@ == hdr + csv_rows(*self, self.live_ids_below(s as int), q),
        {
            let ghost ids0 = self.live_ids_below(s as int);
            if self.state_is_live(s) {
                let ghost row_base = out@;
                if s == ini {
                    out.push('-');
                    out.push('>');
                }
                if self.state_accept(s) {
                    out.push('*');
                }
                out.push('<');
                push_dec(s, &mut out);
                out.push('>');
                let ghost cells_base = out@;
                proof {
                    assert(cells_base =~= row_base + (if s as int == self.initial_id() {
                        seq!['-', '>']
                    } else {
                        Seq::<char>::empty()
                    }) + (if self.accepting(s as int) {
                        seq!['*']
                    } else {
                        Seq::<char>::empty()
                    }) + seq!['<'] + dec_digits(s as nat) + seq!['>']);
                    assert(out@ =~= cells_base + csv_cells(*self, s as int, q.subrange(0, 0)));
                }
                for k in 0..al
                    invariant
                        self.wf(),
                        al == q.len(),
                        q == alpha@,
                        s < n,
                        out@ == cells_base + csv_cells(*self, s as int, q.subrange(0, k as int)),
                {
                    self.push_cell(s, &alpha[k], &mut out);
                    proof {
                        assert(q.subrange(0, k + 1) =~= q.subrange(0, k as int).push(
                            q[k as int],
                        ));
                        assert(q.subrange(0, k + 1).drop_last() =~= q.subrange(0, k as int));
                        assert(out@ =~= cells_base + csv_cells(
                            *self,
                            s as int,
                            q.subrange(0, k + 1),
                        ));
                    }
                }
                out.push('\n');
                proof {
                    assert(q.subrange(0, al as int) =~= q);
                    assert(out@ =~= row_base + csv_row(*self, s as int, q));
                    assert(self.live_ids_below(s + 1) == ids0.push(s as int));
                    assert(self.live_ids_below(s + 1).drop_last() =~= ids0);
                    assert(out@ =~= hdr + csv_rows(*self, self.live_ids_below(s + 1), q));
                }
            } else {
                proof {
                    assert(self.live_ids_below(s + 1) == ids0);
                }
            }
        }
        proof {
            assert(out@ =~= csv_spec(*self, q));
        }
        crate::dfa::chars_to_string(&out)
    }

    /// The graph: `digraph FA` with left-to-right ranking, a
    /// `doublecircle` mark for each accepting state, and one arrow per
    /// state and symbol listing every destination.
    #[verifier::rlimit(80)]
    pub fn to_dot(&self) -> (r: String)
        requires
            self.wf(),
        ensures
            exists|q: Seq<T>| #[trigger] sorted_syms(*self, q) && r@ == dot_spec(*self, q),
    {
        let alpha = sort_syms(self);
        let ghost q = alpha@;
        let mut out: Vec<char> = Vec::new();
        out.push('d');
        out.push('i');
        out.push('g');
        out.push('r');
        out.push('a');
        out.push('p');
        out.push('h');
        out.push(' ');
        out.push('F');
        out.push('A');
        out.push(' ');
        out.push('{');
        out.push('\n');
        out.push('r');
        out.push('a');
        out.push('n');
        out.push('k');
        out.push('d');
        out.push('i');
        out.push('r');
        out.push('=');
        out.push('"');
        out.push('L');
        out.push('R');
        out.push('"');
        out.push(';');
        out.push('\n');
        let ghost hdr = out@;
        proof {
            assert(out@ =~= hdr + dot_states(*self, self.live_ids_below(0), q));
        }
        let al = alpha.len();
        let n = self.state_slot_count();
        for s in 0..n
            invariant
                self.wf(),
                al == q.len(),
                q == alpha@,
                sorted_syms(*self, q),
                n == self.n_slots(),
                out@ == hdr + dot_states(*self, self.live_ids_below(s as int), q),
        {
            let ghost ids0 = self.live_ids_below(s as int);
            if self.state_is_live(s) {
                let ghost st_base = out@;
                if self.state_accept(s) {
                    push_dec(s, &mut out);
                    out.push(' ');
                    out.push('[');
                    out.push('s');
                    out.push('h');
                    out.push('a');
                    out.push('p');
                    out.push('e');
                    out.push('=');
                    out.push('d');
                    out.push('o');
                    out.push('u');
                    out.push('b');
                    out.push('l');
                    out.push('e');
                    out.push('c');
                    out.push('i');
                    out.push('r');
                    out.push('c');
                    out.push('l');
                    out.push('e');
                    out.push(']');
                    out.push(';');
                    out.push('\n');
                    proof {
                        assert(out@ =~= st_base + dot_accept_line(s as int));
                    }
                }
                let ghost edges_base = out@;
                proof {
                    assert(edges_base =~= st_base + (if self.accepting(s as int) {
                        dot_accept_line(s as int)
                    } else {
                        Seq::<char>::empty()
                    }));
                    assert(out@ =~= edges_base + dot_edge_lines(*self, s as int, q.subrange(0, 0)));
                }
                for k in 0..al
                    invariant
                        self.wf(),
                        al == q.len(),
                        q == alpha@,
                        s < n,
                        out@ == edges_base + dot_edge_lines(
                            *self,
                            s as int,
                            q.subrange(0, k as int),
                        ),
                {
                    self.push_dot_edge(s, &alpha[k], &mut out);
                    proof {
                        assert(q.subrange(0, k + 1) =~= q.subrange(0, k as int).push(
                            q[k as int],
                        ));
                        assert(q.subrange(0, k + 1).drop_last() =~= q.subrange(0, k as int));
                        assert(out@ =~= edges_base + dot_edge_lines(
                            *self,
                            s as int,
                            q.subrange(0, k + 1),
                        ));
                    }
                }
                proof {
                    assert(q.subrange(0, al as int) =~= q);
                    assert(out@ =~= st_base + dot_state(*self, s as int, q));
                    assert(self.live_ids_below(s + 1) == ids0.push(s as int));
                    assert(self.live_ids_below(s + 1).drop_last() =~= ids0);
                    assert(out@ =~= hdr + dot_states(*self, self.live_ids_below(s + 1), q));
                }
            } else {
                proof {
                    assert(self.live_ids_below(s + 1) == ids0);
                }
            }
        }
        out.push('}');
        out.push('\n');
        proof {
            assert(out@ =~= dot_spec(*self, q));
        }
        crate::dfa::chars_to_string(&out)
    }

    /// Append the graph edge line for `(s, x)` to `out`.
    fn push_dot_edge(&self, s: usize, x: &T, out: &mut Vec<char>)
        requires
            self.wf(),
        ensures
            final(out)@ == old(out)@ + dot_edge_line(*self, s as int, *x),
    {
        let ghost xv = *x;
        let ghost pick = (|t: Transition<T>| t.0 == xv);
        let m = self.edge_count(s);
        let mut any = false;
        let ghost base = out@;
        for j in 0..m
            invariant
                self.wf(),
                xv == *x,
                s == s,
                pick == (|t: Transition<T>| t.0 == xv),
                m == self.edges_at(s as int).len(),
                any == (self.edges_at(s as int).subrange(0, j as int).filter(pick).len() > 0),
                out@ == base + (if any {
                    dec_digits(s as nat) + seq![' ', '-', '>', ' ', '{'] + dot_dests(
                        self.edges_at(s as int).subrange(0, j as int).filter(pick),
                    )
                } else {
                    Seq::<char>::empty()
                }),
        {
            let ghost ed = self.edges_at(s as int);
            proof {
                crate::seq_facts::lemma_filter_push(ed.subrange(0, j as int), ed[j as int], pick);
                assert(ed.subrange(0, j + 1) =~= ed.subrange(0, j as int).push(ed[j as int]));
            }
            let (esym, edst) = self.edge_at(s, j);
            if esym.sym_eq(x) {
                if !any {
                    push_dec(s, out);
                    out.push(' ');
                    out.push('-');
                    out.push('>');
                    out.push(' ');
                    out.push('{');
                    any = true;
                } else {
                    out.push(',');
                }
                push_dec(edst, out);
                proof {
                    let fl0 = ed.subrange(0, j as int).filter(pick);
                    let fl1 = ed.subrange(0, j + 1).filter(pick);
                    assert(fl1 == fl0 + seq![ed[j as int]]);
                    assert(fl1.drop_last() =~= fl0);
                    assert(fl1.last() == ed[j as int]);
                    if fl0.len() == 0 {
                        assert(dot_dests(fl1) == dec_digits(ed[j as int].1 as nat));
                    } else {
                        assert(dot_dests(fl1) == dot_dests(fl0) + seq![','] + dec_digits(
                            ed[j as int].1 as nat,
                        ));
                    }
                    assert(out@ =~= base + dec_digits(s as nat) + seq![' ', '-', '>', ' ', '{']
                        + dot_dests(fl1));
                }
            } else {
                proof {
                    let fl0 = ed.subrange(0, j as int).filter(pick);
                    let fl1 = ed.subrange(0, j + 1).filter(pick);
                    assert(fl1 == fl0 + Seq::<Transition<T>>::empty());
                    assert(fl1 =~= fl0);
                }
            }
        }
        if any {
            out.push('}');
            out.push(' ');
            out.push('[');
            out.push('l');
            out.push('a');
            out.push('b');
            out.push('e');
            out.push('l');
            out.push('=');
            let mut sym = x.render();
            out.append(&mut sym);
            out.push(']');
            out.push(';');
            out.push('\n');
        }
        proof {
            let ed = self.edges_at(s as int);
            assert(ed.subrange(0, m as int) =~= ed);
            assert(out@ =~= base + dot_edge_line(*self, s as int, xv));
        }
    }
}

} // verus!
