//! The grammar front-end: a character-driven state machine that builds
//! an automaton from literal token lines and right-linear productions
//! such as `<A> ::= a<B> | b | <>`.

use vstd::prelude::*;

verus! {

use crate::dfa::Dfa;
use crate::dfa::Transitable;
use crate::seq_facts::lemma_filter_push;

/// What the reader is currently inside of.
enum Reading {
    /// A literal token, taken character by character.
    Normal,
    /// The non-terminal on the left of `::=`.
    StateDef,
    /// The terminal symbols of the alternatives on the right.
    StateTransitions,
    /// A non-terminal target `<X>`; the flag records whether any
    /// character stood between the angle brackets.
    StateTransitionTarget(bool),
}

/// A line with its spaces skipped: the word a literal token line spells.
pub open spec fn strip_spaces(s: Seq<char>) -> Seq<char> {
    s.filter(|c: char| c != ' ')
}

/// No line opens a production: the whole input is literal tokens.
pub open spec fn literal_lines(lines: Seq<Vec<char>>) -> bool {
    forall|i: int, j: int|
        0 <= i < lines.len() && 0 <= j < lines[i]@.len() ==> (#[trigger] lines[i]@[j]) != '<'
}

/// `w` is the word of one of the first `li` lines.
pub open spec fn token_of(lines: Seq<Vec<char>>, li: int, w: Seq<char>) -> bool {
    exists|i: int| 0 <= i < li && w == strip_spaces((#[trigger] lines[i])@)
}

/// The summed word lengths of the first `li` lines.
pub open spec fn words_len(lines: Seq<Vec<char>>, li: int) -> nat
    decreases li,
{
    if li <= 0 {
        0
    } else {
        words_len(lines, li - 1) + strip_spaces(lines[li - 1]@).len()
    }
}

/// The state reached after `p` characters of line `i`'s word: the
/// initial state for `p == 0`, then that line's chain of fresh states.
pub open spec fn chain_state(lines: Seq<Vec<char>>, i: int, p: int) -> int {
    if p == 0 {
        0
    } else {
        1 + words_len(lines, i) + (p - 1)
    }
}

/// An edge of one of the chains of the first `li` lines.
pub open spec fn chain_edge(lines: Seq<Vec<char>>, li: int, s: int, x: char, d: int) -> bool {
    exists|i: int, p: int|
        #![trigger strip_spaces(lines[i]@)[p]]
        0 <= i < li && 0 <= p < strip_spaces(lines[i]@).len() && s == chain_state(lines, i, p) && x
            == strip_spaces(lines[i]@)[p] && d == chain_state(lines, i, p + 1)
}

/// An accepting state of the first `li` chains: where a line's whole
/// word ends (the initial state itself for a blank line).
pub open spec fn chain_accept(lines: Seq<Vec<char>>, li: int, s: int) -> bool {
    exists|i: int|
        0 <= i < li && s == chain_state(
            lines,
            i,
            strip_spaces((#[trigger] lines[i])@).len() as int,
        )
}

/// A non-space character of one of the first `li` lines.
pub open spec fn word_char(lines: Seq<Vec<char>>, li: int, x: char) -> bool {
    exists|i: int, p: int|
        #![trigger strip_spaces(lines[i]@)[p]]
        0 <= i < li && 0 <= p < strip_spaces(lines[i]@).len() && strip_spaces(lines[i]@)[p] == x
}

/// An edge of the partial chain of the current word prefix `pw`, whose
/// fresh states start at `base`.
spec fn partial_edge(pw: Seq<char>, base: int, s: int, x: char, d: int) -> bool {
    exists|p: int|
        0 <= p < pw.len() && s == (if p == 0 {
            0
        } else {
            base + (p - 1)
        }) && #[trigger] pw[p] == x && d == base + p
}

proof fn lemma_words_len_mono(lines: Seq<Vec<char>>, i: int, j: int)
    requires
        0 <= i <= j,
    ensures
        words_len(lines, i) <= words_len(lines, j),
    decreases j,
{
    if i < j {
        lemma_words_len_mono(lines, i, j - 1);
    }
}

/// Exactly one run from the initial state ends in `t`, and it spells
/// `w0`.
spec fn unique_run(a: Dfa<char>, t: int, w0: Seq<char>) -> bool {
    forall|w: Seq<char>| #[trigger] a.runs_to(a.initial_id(), w, t) <==> w == w0
}

/// No edge leads back into the initial state.
spec fn no_edge_into_initial(a: Dfa<char>) -> bool {
    forall|s2: int, x: char| !(#[trigger] a.has_edge(s2, x, a.initial_id()))
}

/// The state id bound to a non-terminal character, if any.
fn mapper_get(mapper: &Vec<(char, usize)>, c: char) -> (r: Option<usize>)
    ensures
        (r matches Some(v) ==> exists|k: int|
            0 <= k < mapper@.len() && (#[trigger] mapper@[k]).0 == c && mapper@[k].1 == v),
        (r is None ==> forall|k: int|
            0 <= k < mapper@.len() ==> (#[trigger] mapper@[k]).0 != c),
{
    let n = mapper.len();
    for k in 0..n
        invariant
            n == mapper@.len(),
            forall|k2: int| 0 <= k2 < k ==> (#[trigger] mapper@[k2]).0 != c,
    {
        if mapper[k].0 == c {
            return Some(mapper[k].1);
        }
    }
    None
}

/// Every id the mapper holds is a live state of `d`.
spec fn mapper_ok(mapper: Seq<(char, usize)>, d: Dfa<char>) -> bool {
    forall|k: int| 0 <= k < mapper.len() ==> d.live((#[trigger] mapper[k]).1 as int)
}

/// Build an automaton from the given lines. A line without `<` is a
/// literal token: its characters (spaces skipped) become a fresh chain
/// of states off the initial state, and the final state accepts. Any
/// other line is a production `<X> ::= a<Y> | b | <>`: `S` names the
/// initial state, other non-terminals are allocated on first sight,
/// `a<Y>` adds an edge, a bare terminal adds an edge to a fresh
/// accepting state, and `<>` marks the current non-terminal's state
/// accepting.
///
/// For an input made only of literal token lines, the result accepts
/// exactly the words those lines spell.
pub fn parse_grammar(lines: &Vec<Vec<char>>) -> (d: Dfa<char>)
    ensures
        d.wf(),
        d.initial_id() == 0,
        literal_lines(lines@) ==> (forall|w: Seq<char>|
            #[trigger] d.accepts(w) <==> token_of(lines@, lines@.len() as int, w)),
        literal_lines(lines@) ==> forall|i: int|
            0 <= i < lines@.len() ==> d.accepts(strip_spaces((#[trigger] lines@[i])@)),
        literal_lines(lines@) ==> d.current_id() == 0,
        literal_lines(lines@) ==> d.n_slots() == 1 + words_len(lines@, lines@.len() as int),
        literal_lines(lines@) ==> (forall|s: int| 0 <= s < d.n_slots() ==> d.live(s)),
        literal_lines(lines@) ==> (forall|s: int, x: char, d2: int|
            #[trigger] d.has_edge(s, x, d2) <==> chain_edge(lines@, lines@.len() as int, s, x, d2)),
        literal_lines(lines@) ==> (forall|s: int|
            #[trigger] d.accepting(s) <==> chain_accept(lines@, lines@.len() as int, s)),
        literal_lines(lines@) ==> (forall|x: char|
            #[trigger] d.alpha_has(x) <==> word_char(lines@, lines@.len() as int, x)),
{
    let mut reading = Reading::Normal;
    let mut dfa: Dfa<char> = Dfa::new();
    let mut mapper: Vec<(char, usize)> = Vec::new();
    let mut temp: Option<char> = None;
    let nl = lines.len();
    proof {
        assert(dfa.live(dfa.initial_id()));
        assert forall|w: Seq<char>| #[trigger] dfa.accepts(w) <==> token_of(lines@, 0, w) by {
            if dfa.accepts(w) {
                if w.len() == 0 {
                    assert(!dfa.accepting(0));
                } else {
                    let m = choose|m: int|
                        #[trigger] dfa.has_edge(0, w[0], m) && dfa.accepts_from(m, w.skip(1));
                    let i = choose|i: int|
                        0 <= i < dfa.edges_at(0).len() && #[trigger] dfa.edges_at(0)[i].0 == w[0]
                            && dfa.edges_at(0)[i].1 == m;
                }
            }
        }
        assert forall|s2: int, x: char| !(#[trigger] dfa.has_edge(s2, x, dfa.initial_id())) by {
            if dfa.has_edge(s2, x, 0) {
                assert(dfa.live(s2));
                assert(dfa.edges_at(s2).len() == 0);
            }
        }
        assert(no_edge_into_initial(dfa));
        assert(dfa.n_slots() == 1 + words_len(lines@, 0));
        assert forall|s2: int| 0 <= s2 < dfa.n_slots() implies dfa.live(s2) by {}
        assert forall|s2: int, x: char, d2: int|
            #[trigger] dfa.has_edge(s2, x, d2) <==> chain_edge(lines@, 0, s2, x, d2) by {
            if dfa.has_edge(s2, x, d2) {
                assert(dfa.live(s2));
                assert(dfa.edges_at(s2).len() == 0);
            }
            if chain_edge(lines@, 0, s2, x, d2) {
                let (i, p) = choose|i: int, p: int|
                    #![trigger strip_spaces(lines@[i]@)[p]]
                    0 <= i < 0 && 0 <= p < strip_spaces(lines@[i]@).len() && s2 == chain_state(
                        lines@,
                        i,
                        p,
                    ) && x == strip_spaces(lines@[i]@)[p] && d2 == chain_state(lines@, i, p + 1);
            }
        }
        assert forall|s2: int| #[trigger] dfa.accepting(s2) <==> chain_accept(lines@, 0, s2) by {
            if chain_accept(lines@, 0, s2) {
                let i = choose|i: int|
                    0 <= i < 0 && s2 == chain_state(
                        lines@,
                        i,
                        strip_spaces((#[trigger] lines@[i])@).len() as int,
                    );
            }
        }
    }
    for li in 0..nl
        invariant
            nl == lines@.len(),
            dfa.wf(),
            dfa.live(dfa.initial_id()),
            dfa.live(dfa.current_id()),
            dfa.initial_id() == 0,
            mapper_ok(mapper@, dfa),
            literal_lines(lines@) ==> reading is Normal,
            literal_lines(lines@) ==> temp is None,
            literal_lines(lines@) ==> dfa.current_id() == dfa.initial_id(),
            literal_lines(lines@) ==> no_edge_into_initial(dfa),
            literal_lines(lines@) ==> (forall|w: Seq<char>|
                #[trigger] dfa.accepts(w) <==> token_of(lines@, li as int, w)),
            literal_lines(lines@) ==> dfa.n_slots() == 1 + words_len(lines@, li as int),
            literal_lines(lines@) ==> (forall|s: int| 0 <= s < dfa.n_slots() ==> dfa.live(s)),
            literal_lines(lines@) ==> (forall|s: int, x: char, d2: int|
                #[trigger] dfa.has_edge(s, x, d2) <==> chain_edge(lines@, li as int, s, x, d2)),
            literal_lines(lines@) ==> (forall|s: int|
                #[trigger] dfa.accepting(s) <==> chain_accept(lines@, li as int, s)),
    {
        let line = &lines[li];
        let nc = line.len();
        proof {
            if literal_lines(lines@) {
                assert(line@.subrange(0, 0) =~= Seq::<char>::empty());
                assert(strip_spaces(line@.subrange(0, 0)) =~= Seq::<char>::empty()) by {
                    reveal_with_fuel(Seq::filter, 2);
                }
                assert forall|w: Seq<char>| #[trigger]
                    dfa.runs_to(dfa.initial_id(), w, dfa.current_id()) <==> w == strip_spaces(
                    line@.subrange(0, 0),
                ) by {
                    if dfa.runs_to(dfa.initial_id(), w, dfa.current_id()) {
                        if w.len() > 0 {
                            dfa.lemma_last_step(dfa.initial_id(), w, dfa.current_id());
                            let m = choose|m: int|
                                #[trigger] dfa.runs_to(dfa.initial_id(), w.drop_last(), m)
                                    && dfa.has_edge(m, w.last(), dfa.current_id());
                            assert(dfa.has_edge(m, w.last(), dfa.initial_id()));
                            assert(false);
                        }
                        assert(w =~= strip_spaces(line@.subrange(0, 0)));
                    }
                    if w == strip_spaces(line@.subrange(0, 0)) {
                        assert(w.len() == 0);
                        assert(dfa.runs_to(dfa.initial_id(), w, dfa.current_id()));
                    }
                }
                assert(unique_run(dfa, dfa.current_id(), strip_spaces(line@.subrange(0, 0))));
                assert forall|s2: int, x: char, d2: int|
                    #[trigger] dfa.has_edge(s2, x, d2) <==> (chain_edge(
                    lines@,
                    li as int,
                    s2,
                    x,
                    d2,
                ) || partial_edge(
                    strip_spaces(line@.subrange(0, 0)),
                    (1 + words_len(lines@, li as int)) as int,
                    s2,
                    x,
                    d2,
                )) by {
                    if partial_edge(
                        strip_spaces(line@.subrange(0, 0)),
                        (1 + words_len(lines@, li as int)) as int,
                        s2,
                        x,
                        d2,
                    ) {
                        let p = choose|p: int|
                            0 <= p < strip_spaces(line@.subrange(0, 0)).len() && s2 == (if p == 0 {
                                0int
                            } else {
                                1 + words_len(lines@, li as int) + (p - 1)
                            }) && #[trigger] strip_spaces(line@.subrange(0, 0))[p] == x && d2 == 1
                                + words_len(lines@, li as int) + p;
                    }
                }
            }
        }
        for ci in 0..nc
            invariant
                nc == line@.len(),
                line@ == lines@[li as int]@,
                li < nl,
                nl == lines@.len(),
                dfa.wf(),
                dfa.live(dfa.initial_id()),
                dfa.live(dfa.current_id()),
                dfa.initial_id() == 0,
                mapper_ok(mapper@, dfa),
                literal_lines(lines@) ==> reading is Normal,
                literal_lines(lines@) ==> temp is None,
                literal_lines(lines@) ==> no_edge_into_initial(dfa),
                literal_lines(lines@) ==> (forall|w: Seq<char>|
                    #[trigger] dfa.accepts(w) <==> token_of(lines@, li as int, w)),
                literal_lines(lines@) ==> unique_run(
                    dfa,
                    dfa.current_id(),
                    strip_spaces(line@.subrange(0, ci as int)),
                ),
                literal_lines(lines@) ==> dfa.n_slots() == 1 + words_len(lines@, li as int)
                    + strip_spaces(line@.subrange(0, ci as int)).len(),
                literal_lines(lines@) ==> (forall|s: int| 0 <= s < dfa.n_slots() ==> dfa.live(s)),
                literal_lines(lines@) ==> dfa.current_id() == (if strip_spaces(
                    line@.subrange(0, ci as int),
                ).len() == 0 {
                    0int
                } else {
                    1 + words_len(lines@, li as int) + (strip_spaces(
                        line@.subrange(0, ci as int),
                    ).len() - 1)
                }),
                literal_lines(lines@) ==> (forall|s: int, x: char, d2: int|
                    #[trigger] dfa.has_edge(s, x, d2) <==> (chain_edge(lines@, li as int, s, x, d2)
                        || partial_edge(
                        strip_spaces(line@.subrange(0, ci as int)),
                        (1 + words_len(lines@, li as int)) as int,
                        s,
                        x,
                        d2,
                    ))),
                literal_lines(lines@) ==> (forall|s: int|
                    #[trigger] dfa.accepting(s) <==> chain_accept(lines@, li as int, s)),
        {
            let c = line[ci];
            proof {
                if literal_lines(lines@) {
                    lemma_filter_push(
                        line@.subrange(0, ci as int),
                        line@[ci as int],
                        (|c: char| c != ' '),
                    );
                    assert(line@.subrange(0, ci + 1) =~= line@.subrange(0, ci as int).push(
                        line@[ci as int],
                    ));
                }
            }
            match reading {
                Reading::Normal => {
                    if c != ' ' {
                        if c == '<' {
                            proof {
                                if literal_lines(lines@) {
                                    assert((lines@[li as int])@[ci as int] != '<');
                                    assert(false);
                                }
                            }
                            reading = Reading::StateDef;
                        } else {
                            let ghost g0 = dfa;
                            let idx = dfa.add_state(false);
                            proof {
                                lemma_mapper_live(mapper@, g0, dfa);
                                g0.lemma_pushed_state_edges(dfa);
                                g0.lemma_edges_pointwise(dfa);
                                assert forall|s2: int|
                                    #![trigger g0.accepting(s2)]
                                    #![trigger dfa.accepting(s2)]
                                    dfa.accepting(s2) == g0.accepting(s2) by {}
                                if literal_lines(lines@) {
                                    assert forall|w: Seq<char>| #[trigger]
                                        dfa.accepts(w) <==> token_of(lines@, li as int, w) by {
                                        assert(g0.accepts(w) == token_of(lines@, li as int, w));
                                        if dfa.accepts(w) {
                                            dfa.lemma_mono_accepts(g0, g0.initial_id(), w);
                                        }
                                        if token_of(lines@, li as int, w) {
                                            g0.lemma_mono_accepts(dfa, g0.initial_id(), w);
                                        }
                                    }
                                    assert forall|w: Seq<char>| #[trigger]
                                        dfa.runs_to(dfa.initial_id(), w, dfa.current_id())
                                        <==> w == strip_spaces(line@.subrange(0, ci as int)) by {
                                        if dfa.runs_to(dfa.initial_id(), w, dfa.current_id()) {
                                            dfa.lemma_mono_runs(
                                                g0,
                                                g0.initial_id(),
                                                w,
                                                g0.current_id(),
                                            );
                                        }
                                        if w == strip_spaces(line@.subrange(0, ci as int)) {
                                            assert(g0.runs_to(
                                                g0.initial_id(),
                                                w,
                                                g0.current_id(),
                                            ));
                                            g0.lemma_mono_runs(
                                                dfa,
                                                g0.initial_id(),
                                                w,
                                                g0.current_id(),
                                            );
                                        }
                                    }
                                    assert(unique_run(
                                        dfa,
                                        dfa.current_id(),
                                        strip_spaces(line@.subrange(0, ci as int)),
                                    ));
                                    assert forall|s2: int, x: char|
                                        !(#[trigger] dfa.has_edge(s2, x, dfa.initial_id())) by {
                                        if dfa.has_edge(s2, x, 0) {
                                            assert(g0.has_edge(s2, x, 0));
                                        }
                                    }
                                    assert(no_edge_into_initial(dfa));
                                    // the fresh state has no edges either way
                                    assert forall|s2: int, x: char|
                                        !(#[trigger] dfa.has_edge(s2, x, idx as int)) by {
                                        if dfa.has_edge(s2, x, idx as int) {
                                            assert(g0.has_edge(s2, x, idx as int));
                                            assert(g0.live(idx as int));
                                        }
                                    }
                                    assert forall|x: char, d2: int|
                                        !(#[trigger] dfa.has_edge(idx as int, x, d2)) by {
                                        if dfa.has_edge(idx as int, x, d2) {
                                            assert(g0.has_edge(idx as int, x, d2));
                                            assert(g0.edges_at(idx as int).len() == 0);
                                        }
                                    }
                                }
                            }
                            let ghost g1 = dfa;
                            dfa.create_transition_and_walk(c, idx);
                            proof {
                                lemma_mapper_live(mapper@, g1, dfa);
                                if literal_lines(lines@) {
                                    assert forall|s2: int|
                                        #![trigger g1.accepting(s2)]
                                        #![trigger dfa.accepting(s2)]
                                        dfa.accepting(s2) == g1.accepting(s2) by {}
                                    assert(g1.current_id() != idx as int);
                                    assert(!dfa.accepting(idx as int));
                                    assert forall|x: char, d2: int|
                                        !(#[trigger] dfa.has_edge(idx as int, x, d2)) by {
                                        if dfa.has_edge(idx as int, x, d2) {
                                            assert(g1.has_edge(idx as int, x, d2) || (idx as int
                                                == g1.current_id() && x == c && d2 == idx as int));
                                        }
                                    }
                                    assert forall|w: Seq<char>| #[trigger]
                                        dfa.accepts(w) <==> token_of(lines@, li as int, w) by {
                                        assert(g1.accepts(w) == token_of(lines@, li as int, w));
                                        g1.lemma_sink_preserves(
                                            dfa,
                                            idx as int,
                                            g1.initial_id(),
                                            w,
                                        );
                                    }
                                    assert forall|w: Seq<char>| #[trigger]
                                        dfa.runs_to(dfa.initial_id(), w, dfa.current_id())
                                        <==> w == strip_spaces(line@.subrange(0, ci + 1)) by {
                                        g1.lemma_extend_run_new(
                                            dfa,
                                            g1.current_id(),
                                            c,
                                            idx as int,
                                            g1.initial_id(),
                                            w,
                                        );
                                        let pw = strip_spaces(line@.subrange(0, ci as int));
                                        assert(strip_spaces(line@.subrange(0, ci + 1)) =~= pw.push(
                                            c,
                                        ));
                                        if dfa.runs_to(dfa.initial_id(), w, dfa.current_id()) {
                                            assert(w.len() > 0 && w.last() == c && g1.runs_to(
                                                g1.initial_id(),
                                                w.drop_last(),
                                                g1.current_id(),
                                            ));
                                            assert(w.drop_last() == pw);
                                            assert(w =~= pw.push(c));
                                        }
                                        if w == strip_spaces(line@.subrange(0, ci + 1)) {
                                            assert(w == pw.push(c));
                                            assert(w.drop_last() =~= pw);
                                            assert(w.last() == c);
                                            assert(g1.runs_to(
                                                g1.initial_id(),
                                                w.drop_last(),
                                                g1.current_id(),
                                            ));
                                        }
                                    }
                                    assert(unique_run(
                                        dfa,
                                        dfa.current_id(),
                                        strip_spaces(line@.subrange(0, ci + 1)),
                                    ));
                                    assert forall|s2: int, x: char|
                                        !(#[trigger] dfa.has_edge(s2, x, dfa.initial_id())) by {
                                        if dfa.has_edge(s2, x, 0) {
                                            assert(g1.has_edge(s2, x, 0) || (s2
                                                == g1.current_id() && x == c && 0 == idx as int));
                                            assert(g1.has_edge(s2, x, 0));
                                        }
                                    }
                                    assert(no_edge_into_initial(dfa));
                                    // the chain bookkeeping: one more state, one more edge
                                    let pw = strip_spaces(line@.subrange(0, ci as int));
                                    let pw2 = strip_spaces(line@.subrange(0, ci + 1));
                                    let base = 1 + words_len(lines@, li as int) as int;
                                    assert(pw2 =~= pw.push(c));
                                    assert(idx as int == base + pw.len());
                                    assert(g1.current_id() == (if pw.len() == 0 {
                                        0int
                                    } else {
                                        base + (pw.len() - 1)
                                    }));
                                    assert forall|s2: int|
                                        0 <= s2 < dfa.n_slots() implies dfa.live(s2) by {
                                        if s2 < g0.n_slots() {
                                            assert(g0.live(s2));
                                        }
                                    }
                                    assert forall|s2: int, x2: char, d2: int|
                                        #[trigger] dfa.has_edge(s2, x2, d2) <==> (chain_edge(
                                        lines@,
                                        li as int,
                                        s2,
                                        x2,
                                        d2,
                                    ) || partial_edge(pw2, base, s2, x2, d2)) by {
                                        if dfa.has_edge(s2, x2, d2) {
                                            if g1.has_edge(s2, x2, d2) {
                                                assert(g0.has_edge(s2, x2, d2));
                                                if partial_edge(pw, base, s2, x2, d2) {
                                                    let p = choose|p: int|
                                                        0 <= p < pw.len() && s2 == (if p == 0 {
                                                            0int
                                                        } else {
                                                            base + (p - 1)
                                                        }) && #[trigger] pw[p] == x2 && d2 == base
                                                            + p;
                                                    assert(pw2[p] == x2);
                                                    assert(partial_edge(pw2, base, s2, x2, d2));
                                                }
                                            } else {
                                                assert(s2 == g1.current_id() && x2 == c && d2
                                                    == idx as int);
                                                assert(pw2[pw.len() as int] == c);
                                                assert(partial_edge(pw2, base, s2, x2, d2));
                                            }
                                        }
                                        if chain_edge(lines@, li as int, s2, x2, d2) {
                                            assert(g0.has_edge(s2, x2, d2));
                                            assert(g1.has_edge(s2, x2, d2));
                                            assert(dfa.has_edge(s2, x2, d2));
                                        }
                                        if partial_edge(pw2, base, s2, x2, d2) {
                                            let p = choose|p: int|
                                                0 <= p < pw2.len() && s2 == (if p == 0 {
                                                    0int
                                                } else {
                                                    base + (p - 1)
                                                }) && #[trigger] pw2[p] == x2 && d2 == base + p;
                                            if p < pw.len() {
                                                assert(pw[p] == x2);
                                                assert(partial_edge(pw, base, s2, x2, d2));
                                                assert(g0.has_edge(s2, x2, d2));
                                                assert(g1.has_edge(s2, x2, d2));
                                                assert(dfa.has_edge(s2, x2, d2));
                                            } else {
                                                assert(p == pw.len());
                                                assert(x2 == c && d2 == idx as int && s2
                                                    == g1.current_id());
                                                assert(dfa.has_edge(s2, x2, d2));
                                            }
                                        }
                                    }
                                    assert forall|s2: int|
                                        chain_accept(lines@, li as int, s2) implies 0 <= s2 < 1
                                        + words_len(lines@, li as int) by {
                                        let i = choose|i: int|
                                            0 <= i < li && s2 == chain_state(
                                                lines@,
                                                i,
                                                strip_spaces((#[trigger] lines@[i])@).len() as int,
                                            );
                                        lemma_words_len_mono(lines@, i + 1, li as int);
                                    }
                                    assert forall|s2: int|
                                        #[trigger] dfa.accepting(s2) <==> chain_accept(
                                        lines@,
                                        li as int,
                                        s2,
                                    ) by {
                                        if s2 == idx as int {
                                            assert(!dfa.accepting(s2));
                                        } else {
                                            assert(dfa.accepting(s2) == g0.accepting(s2));
                                        }
                                    }
                                }
                            }
                        }
                    } else {
                        proof {
                            if literal_lines(lines@) {
                                assert(strip_spaces(line@.subrange(0, ci + 1)) =~= strip_spaces(
                                    line@.subrange(0, ci as int),
                                ));
                            }
                        }
                    }
                },
                Reading::StateDef => {
                    proof {
                        if literal_lines(lines@) {
                            assert(false);
                        }
                    }
                    if c != ' ' {
                        if c == '<' {
                        } else if c == '>' {
                            reading = Reading::StateTransitions;
                        } else {
                            if c == 'S' {
                                dfa.rewind();
                            } else {
                                let idx = match mapper_get(&mapper, c) {
                                    Some(v) => v,
                                    None => {
                                        let ghost g0 = dfa;
                                        let ghost m0 = mapper@;
                                        let st = dfa.add_state(false);
                                        proof {
                                            lemma_mapper_live(mapper@, g0, dfa);
                                        }
                                        mapper.push((c, st));
                                        proof {
                                            assert forall|k: int|
                                                0 <= k < mapper@.len() implies dfa.live(
                                                (#[trigger] mapper@[k]).1 as int,
                                            ) by {
                                                if k < m0.len() {
                                                    assert(mapper@[k] == m0[k]);
                                                } else {
                                                    assert(mapper@[k].1 == st);
                                                }
                                            }
                                        }
                                        st
                                    },
                                };
                                proof {
                                    assert(dfa.live(idx as int));
                                }
                                let _ = dfa.set_current(idx);
                            }
                        }
                    }
                },
                Reading::StateTransitions => {
                    proof {
                        if literal_lines(lines@) {
                            assert(false);
                        }
                    }
                    if c == '<' {
                        reading = Reading::StateTransitionTarget(false);
                    } else if c == '|' || c == ' ' {
                        if let Some(t) = temp {
                            temp = None;
                            let ghost g0 = dfa;
                            let empty_state = dfa.add_state(true);
                            proof {
                                lemma_mapper_live(mapper@, g0, dfa);
                            }
                            let ghost g1 = dfa;
                            dfa.create_transition(t, empty_state);
                            proof {
                                lemma_mapper_live(mapper@, g1, dfa);
                            }
                        }
                    } else if c == ':' || c == '=' {
                    } else {
                        if temp.is_none() {
                            temp = Some(c);
                        }
                    }
                },
                Reading::StateTransitionTarget(had_state) => {
                    proof {
                        if literal_lines(lines@) {
                            assert(false);
                        }
                    }
                    if c != ' ' {
                        if c == '>' {
                            reading = Reading::StateTransitions;
                            if temp.is_none() && !had_state {
                                let ghost g0 = dfa;
                                dfa.set_current_state_accept(true);
                                proof {
                                    lemma_mapper_live(mapper@, g0, dfa);
                                }
                            }
                        } else {
                            let target = if c == 'S' {
                                dfa.initial()
                            } else {
                                match mapper_get(&mapper, c) {
                                    Some(v) => v,
                                    None => {
                                        let ghost g0 = dfa;
                                        let ghost m0 = mapper@;
                                        let st = dfa.add_state(false);
                                        proof {
                                            lemma_mapper_live(mapper@, g0, dfa);
                                        }
                                        mapper.push((c, st));
                                        proof {
                                            assert forall|k: int|
                                                0 <= k < mapper@.len() implies dfa.live(
                                                (#[trigger] mapper@[k]).1 as int,
                                            ) by {
                                                if k < m0.len() {
                                                    assert(mapper@[k] == m0[k]);
                                                } else {
                                                    assert(mapper@[k].1 == st);
                                                }
                                            }
                                        }
                                        st
                                    },
                                }
                            };
                            proof {
                                assert(dfa.live(target as int));
                            }
                            if let Some(t) = temp {
                                temp = None;
                                let ghost g0 = dfa;
                                dfa.create_transition(t, target);
                                proof {
                                    lemma_mapper_live(mapper@, g0, dfa);
                                }
                            }
                            reading = Reading::StateTransitionTarget(true);
                        }
                    }
                },
            }
        }
        // a trailing bare terminal closes the line with a fresh
        // accepting state
        if let Some(t) = temp {
            proof {
                if literal_lines(lines@) {
                    assert(false);
                }
            }
            temp = None;
            let ghost g0 = dfa;
            let empty_state = dfa.add_state(true);
            proof {
                lemma_mapper_live(mapper@, g0, dfa);
            }
            let ghost g1 = dfa;
            dfa.create_transition(t, empty_state);
            proof {
                lemma_mapper_live(mapper@, g1, dfa);
            }
        }
        match reading {
            Reading::Normal => {
                let ghost g2 = dfa;
                dfa.set_current_state_accept(true);
                proof {
                    lemma_mapper_live(mapper@, g2, dfa);
                    g2.lemma_same_trans(dfa);
                    assert forall|s2: int|
                        #![trigger g2.accepting(s2)]
                        #![trigger dfa.accepting(s2)]
                        dfa.accepting(s2) == (g2.accepting(s2) || s2 == g2.current_id()) by {}
                    if literal_lines(lines@) {
                        assert(line@.subrange(0, nc as int) =~= line@);
                        assert forall|w: Seq<char>| #[trigger]
                            dfa.accepts(w) <==> token_of(lines@, li + 1, w) by {
                            g2.lemma_raise_flag_accepts(
                                dfa,
                                g2.current_id(),
                                g2.initial_id(),
                                w,
                            );
                            assert(g2.accepts(w) == token_of(lines@, li as int, w));
                            assert(dfa.runs_to(g2.initial_id(), w, g2.current_id())
                                == g2.runs_to(g2.initial_id(), w, g2.current_id())) by {
                                if dfa.runs_to(g2.initial_id(), w, g2.current_id()) {
                                    dfa.lemma_mono_runs(
                                        g2,
                                        g2.initial_id(),
                                        w,
                                        g2.current_id(),
                                    );
                                }
                                if g2.runs_to(g2.initial_id(), w, g2.current_id()) {
                                    g2.lemma_mono_runs(
                                        dfa,
                                        g2.initial_id(),
                                        w,
                                        g2.current_id(),
                                    );
                                }
                            }
                            assert(g2.runs_to(g2.initial_id(), w, g2.current_id()) <==> w
                                == strip_spaces(line@));
                            if dfa.accepts(w) {
                                if !token_of(lines@, li as int, w) {
                                    assert(w == strip_spaces(lines@[li as int]@));
                                    assert(token_of(lines@, li + 1, w));
                                } else {
                                    let i = choose|i: int|
                                        0 <= i < li && w == strip_spaces(
                                            (#[trigger] lines@[i])@,
                                        );
                                    assert(token_of(lines@, li + 1, w));
                                }
                            }
                            if token_of(lines@, li + 1, w) {
                                let i = choose|i: int|
                                    0 <= i < li + 1 && w == strip_spaces((#[trigger] lines@[i])@);
                                if i == li as int {
                                    assert(dfa.runs_to(g2.initial_id(), w, g2.current_id()));
                                    assert(dfa.accepts(w));
                                } else {
                                    assert(token_of(lines@, li as int, w));
                                    assert(g2.accepts(w));
                                    assert(dfa.accepts(w));
                                }
                            }
                        }
                        assert forall|s2: int, x: char|
                            !(#[trigger] dfa.has_edge(s2, x, dfa.initial_id())) by {
                            if dfa.has_edge(s2, x, 0) {
                                assert(g2.has_edge(s2, x, 0));
                            }
                        }
                        assert(no_edge_into_initial(dfa));
                        // close the chain: the word's end accepts
                        let pwf = strip_spaces(line@);
                        let base = 1 + words_len(lines@, li as int) as int;
                        assert(strip_spaces(line@.subrange(0, nc as int)) == pwf);
                        assert(words_len(lines@, li + 1) == words_len(lines@, li as int)
                            + pwf.len());
                        assert(g2.current_id() == chain_state(lines@, li as int, pwf.len() as int));
                        assert forall|s2: int|
                            chain_accept(lines@, li as int, s2) implies 0 <= s2 < 1 + words_len(
                            lines@,
                            li as int,
                        ) by {
                            let i = choose|i: int|
                                0 <= i < li && s2 == chain_state(
                                    lines@,
                                    i,
                                    strip_spaces((#[trigger] lines@[i])@).len() as int,
                                );
                            lemma_words_len_mono(lines@, i + 1, li as int);
                        }
                        assert forall|s2: int|
                            #[trigger] dfa.accepting(s2) <==> chain_accept(
                            lines@,
                            li + 1,
                            s2,
                        ) by {
                            if dfa.accepting(s2) {
                                if g2.accepting(s2) {
                                    let i = choose|i: int|
                                        0 <= i < li && s2 == chain_state(
                                            lines@,
                                            i,
                                            strip_spaces((#[trigger] lines@[i])@).len() as int,
                                        );
                                    assert(chain_accept(lines@, li + 1, s2));
                                } else {
                                    assert(s2 == g2.current_id());
                                    assert(s2 == chain_state(
                                        lines@,
                                        li as int,
                                        strip_spaces((lines@[li as int])@).len() as int,
                                    ));
                                    assert(chain_accept(lines@, li + 1, s2));
                                }
                            }
                            if chain_accept(lines@, li + 1, s2) {
                                let i = choose|i: int|
                                    0 <= i < li + 1 && s2 == chain_state(
                                        lines@,
                                        i,
                                        strip_spaces((#[trigger] lines@[i])@).len() as int,
                                    );
                                if i < li {
                                    assert(chain_accept(lines@, li as int, s2));
                                    assert(g2.accepting(s2));
                                    assert(dfa.accepting(s2));
                                } else {
                                    assert(s2 == g2.current_id());
                                    assert(dfa.accepting(s2));
                                }
                            }
                        }
                        assert forall|s2: int, x2: char, d2: int|
                            #[trigger] dfa.has_edge(s2, x2, d2) <==> chain_edge(
                            lines@,
                            li + 1,
                            s2,
                            x2,
                            d2,
                        ) by {
                            assert(dfa.has_edge(s2, x2, d2) == g2.has_edge(s2, x2, d2));
                            if g2.has_edge(s2, x2, d2) {
                                if partial_edge(pwf, base, s2, x2, d2) {
                                    let p = choose|p: int|
                                        0 <= p < pwf.len() && s2 == (if p == 0 {
                                            0int
                                        } else {
                                            base + (p - 1)
                                        }) && #[trigger] pwf[p] == x2 && d2 == base + p;
                                    assert(strip_spaces(lines@[li as int]@)[p] == x2);
                                    assert(s2 == chain_state(lines@, li as int, p));
                                    assert(d2 == chain_state(lines@, li as int, p + 1));
                                    assert(chain_edge(lines@, li + 1, s2, x2, d2));
                                } else {
                                    let (i, p) = choose|i: int, p: int|
                                        #![trigger strip_spaces(lines@[i]@)[p]]
                                        0 <= i < li && 0 <= p < strip_spaces(lines@[i]@).len()
                                            && s2 == chain_state(lines@, i, p) && x2
                                            == strip_spaces(lines@[i]@)[p] && d2 == chain_state(
                                            lines@,
                                            i,
                                            p + 1,
                                        );
                                    assert(chain_edge(lines@, li + 1, s2, x2, d2));
                                }
                            }
                            if chain_edge(lines@, li + 1, s2, x2, d2) {
                                let (i, p) = choose|i: int, p: int|
                                    #![trigger strip_spaces(lines@[i]@)[p]]
                                    0 <= i < li + 1 && 0 <= p < strip_spaces(lines@[i]@).len()
                                        && s2 == chain_state(lines@, i, p) && x2 == strip_spaces(
                                        lines@[i]@,
                                    )[p] && d2 == chain_state(lines@, i, p + 1);
                                if i < li {
                                    assert(chain_edge(lines@, li as int, s2, x2, d2));
                                    assert(g2.has_edge(s2, x2, d2));
                                } else {
                                    assert(pwf[p] == x2);
                                    assert(partial_edge(pwf, base, s2, x2, d2));
                                    assert(g2.has_edge(s2, x2, d2));
                                }
                            }
                        }
                        assert forall|s2: int|
                            0 <= s2 < dfa.n_slots() implies dfa.live(s2) by {
                            assert(g2.live(s2));
                        }
                        assert(dfa.n_slots() == 1 + words_len(lines@, li + 1));
                    }
                }
                let ghost g3 = dfa;
                dfa.rewind();
                proof {
                    lemma_mapper_live(mapper@, g3, dfa);
                    g3.lemma_same_trans(dfa);
                    if literal_lines(lines@) {
                        assert forall|s2: int|
                            #![trigger g3.accepting(s2)]
                            #![trigger dfa.accepting(s2)]
                            dfa.accepting(s2) == g3.accepting(s2) by {}
                        assert forall|w: Seq<char>| #[trigger]
                            dfa.accepts(w) <==> token_of(lines@, li + 1, w) by {
                            assert(g3.accepts(w) == token_of(lines@, li + 1, w));
                            if dfa.accepts(w) {
                                dfa.lemma_mono_accepts(g3, g3.initial_id(), w);
                            }
                            if token_of(lines@, li + 1, w) {
                                g3.lemma_mono_accepts(dfa, g3.initial_id(), w);
                            }
                        }
                        assert forall|s2: int, x: char|
                            !(#[trigger] dfa.has_edge(s2, x, dfa.initial_id())) by {
                            if dfa.has_edge(s2, x, 0) {
                                assert(g3.has_edge(s2, x, 0));
                            }
                        }
                        assert(no_edge_into_initial(dfa));
                        assert forall|s2: int, x2: char, d2: int|
                            #[trigger] dfa.has_edge(s2, x2, d2) <==> chain_edge(
                            lines@,
                            li + 1,
                            s2,
                            x2,
                            d2,
                        ) by {
                            assert(dfa.has_edge(s2, x2, d2) == g3.has_edge(s2, x2, d2));
                        }
                        assert forall|s2: int|
                            #[trigger] dfa.accepting(s2) <==> chain_accept(
                            lines@,
                            li + 1,
                            s2,
                        ) by {
                            assert(dfa.accepting(s2) == g3.accepting(s2));
                        }
                        assert forall|s2: int|
                            0 <= s2 < dfa.n_slots() implies dfa.live(s2) by {
                            assert(g3.live(s2));
                        }
                    }
                }
            },
            _ => {
                proof {
                    if literal_lines(lines@) {
                        assert(false);
                    }
                }
                reading = Reading::StateDef;
            },
        }
    }
    proof {
        if literal_lines(lines@) {
            assert forall|i: int| 0 <= i < lines@.len() implies dfa.accepts(
                strip_spaces((#[trigger] lines@[i])@),
            ) by {
                assert(token_of(lines@, nl as int, strip_spaces(lines@[i]@)));
            }
            assert forall|x: char|
                #[trigger] dfa.alpha_has(x) <==> word_char(lines@, nl as int, x) by {
                dfa.lemma_alphabet_exact(x);
                if dfa.alpha_has(x) {
                    let (s2, d2) = choose|s2: int, d2: int| dfa.has_edge(s2, x, d2);
                    let (i, p) = choose|i: int, p: int|
                        #![trigger strip_spaces(lines@[i]@)[p]]
                        0 <= i < nl && 0 <= p < strip_spaces(lines@[i]@).len() && s2
                            == chain_state(lines@, i, p) && x == strip_spaces(lines@[i]@)[p] && d2
                            == chain_state(lines@, i, p + 1);
                    assert(word_char(lines@, nl as int, x));
                }
                if word_char(lines@, nl as int, x) {
                    let (i, p) = choose|i: int, p: int|
                        #![trigger strip_spaces(lines@[i]@)[p]]
                        0 <= i < nl && 0 <= p < strip_spaces(lines@[i]@).len() && strip_spaces(
                            lines@[i]@,
                        )[p] == x;
                    assert(chain_edge(
                        lines@,
                        nl as int,
                        chain_state(lines@, i, p),
                        x,
                        chain_state(lines@, i, p + 1),
                    ));
                    assert(dfa.has_edge(chain_state(lines@, i, p), x, chain_state(lines@, i, p + 1)));
                    assert(dfa.symbol_used(x));
                }
            }
        }
    }
    dfa
}

/// The mapper's liveness claim survives any operation under which every
/// live state slot stays occupied.
proof fn lemma_mapper_live(mapper: Seq<(char, usize)>, a: Dfa<char>, b: Dfa<char>)
    requires
        mapper_ok(mapper, a),
        a.state_sq().len() <= b.state_sq().len(),
        forall|s: int|
            0 <= s < a.state_sq().len() && a.state_sq()[s] is Some ==> b.state_sq()[s] is Some,
    ensures
        mapper_ok(mapper, b),
{
    assert forall|k: int| 0 <= k < mapper.len() implies b.live(
        (#[trigger] mapper[k]).1 as int,
    ) by {
        assert(a.live(mapper[k].1 as int));
    }
}

} // verus!
