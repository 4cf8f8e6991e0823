use dfa_gen::parse_grammar;
use dfa_gen::Dfa;

fn grammar_lines(text: &str) -> Vec<Vec<char>> {
    let mut lines: Vec<Vec<char>> = Vec::new();
    for line in text.lines() {
        lines.push(line.chars().collect());
    }
    lines
}

fn word(text: &str) -> Vec<char> {
    text.chars().collect()
}

fn outgoing_of(dfa: &Dfa<char>, state: usize) -> usize {
    for (s, edges) in dfa.transitions() {
        if s == state {
            return edges.len();
        }
    }
    0
}

#[test]
fn single_keyword() {
    let lines = grammar_lines("if");
    let mut dfa = parse_grammar(&lines);
    assert_eq!(dfa.states().len(), 3);

    dfa.determinize();
    assert!(dfa.recognizes(&word("if")));
    assert!(!dfa.recognizes(&word("i")));
    assert!(!dfa.recognizes(&word("f")));
    assert!(!dfa.recognizes(&word("")));
    assert!(!dfa.recognizes(&word("iff")));

    dfa.insert_error_state();
    assert_eq!(dfa.states().len(), 4);
    assert_eq!(dfa.alphabet().len(), 2);
    // total on the alphabet: two outgoing edges everywhere
    for (s, _) in dfa.states() {
        assert_eq!(outgoing_of(&dfa, s), 2);
    }
    // the sink changes no verdict
    assert!(dfa.recognizes(&word("if")));
    assert!(!dfa.recognizes(&word("fi")));
}

#[test]
fn two_keywords_sharing_prefix() {
    let lines = grammar_lines("if\nelse\n");
    let mut dfa = parse_grammar(&lines);

    dfa.determinize();
    dfa.minimize();
    // initial plus the two keyword chains
    assert_eq!(dfa.states().len(), 7);
    assert!(dfa.recognizes(&word("if")));
    assert!(dfa.recognizes(&word("else")));
    assert!(!dfa.recognizes(&word("el")));
    assert!(!dfa.recognizes(&word("ifs")));
    assert!(!dfa.recognizes(&word("")));
    assert!(!dfa.recognizes(&word("ifelse")));
}

#[test]
fn simple_regular_grammar() {
    let lines = grammar_lines("<S> ::= a<A>\n<A> ::= a<A> | b<A> | <>\n");
    let mut dfa = parse_grammar(&lines);

    dfa.determinize();
    dfa.minimize();
    dfa.insert_error_state();

    // two live states plus the sink
    assert_eq!(dfa.states().len(), 3);
    assert_eq!(dfa.alphabet().len(), 2);
    for (s, _) in dfa.states() {
        assert_eq!(outgoing_of(&dfa, s), 2);
    }
    assert!(dfa.recognizes(&word("a")));
    assert!(dfa.recognizes(&word("aa")));
    assert!(dfa.recognizes(&word("ab")));
    assert!(dfa.recognizes(&word("abab")));
    assert!(!dfa.recognizes(&word("")));
    assert!(!dfa.recognizes(&word("b")));
    assert!(!dfa.recognizes(&word("ba")));
}

#[test]
fn determinization_required() {
    let lines = grammar_lines("<S> ::= a<A> | a<B>\n<A> ::= b<A> | <>\n<B> ::= c<B> | <>\n");
    let mut dfa = parse_grammar(&lines);

    // the grammar has two edges from the initial state on the same
    // symbol
    assert!(dfa.non_determinist_states().is_some());

    dfa.determinize();
    assert!(dfa.non_determinist_states().is_none());

    // the initial state keeps exactly one edge on each symbol, and its
    // target for the first symbol accepts and reads the two suffixes
    let ini = dfa.initial();
    let mut a_dest = None;
    for (s, edges) in dfa.transitions() {
        if s == ini {
            for e in &edges {
                a_dest = Some(e.1);
            }
            assert_eq!(edges.len(), 1);
        }
    }
    let merged = a_dest.unwrap();
    assert!(dfa.state_accept(merged));
    assert_eq!(outgoing_of(&dfa, merged), 2);

    assert!(dfa.recognizes(&word("a")));
    assert!(dfa.recognizes(&word("ab")));
    assert!(dfa.recognizes(&word("abb")));
    assert!(dfa.recognizes(&word("ac")));
    assert!(dfa.recognizes(&word("acc")));
    assert!(!dfa.recognizes(&word("abc")));
    assert!(!dfa.recognizes(&word("acb")));
    assert!(!dfa.recognizes(&word("b")));
}

#[test]
fn unreachable_pruning() {
    let lines = grammar_lines("<S> ::= a<A>\n<A> ::= a<A> | b<A> | <>\n<Z> ::= z<Z>\n");
    let mut dfa = parse_grammar(&lines);
    assert_eq!(dfa.states().len(), 3);
    assert_eq!(dfa.alphabet().len(), 3);

    dfa.remove_unreachable_states();
    assert_eq!(dfa.states().len(), 2);
    // the orphaned symbol leaves the alphabet with its last edge
    assert_eq!(dfa.alphabet().len(), 2);

    dfa.determinize();
    assert!(dfa.recognizes(&word("ab")));
    assert!(!dfa.recognizes(&word("z")));
}

#[test]
fn dead_pruning() {
    let lines = grammar_lines("<S> ::= a<A>\n<A> ::= a<A> | b<A> | a<D> | <>\n<D> ::= a<D>\n");
    let mut dfa = parse_grammar(&lines);
    assert_eq!(dfa.states().len(), 3);

    dfa.remove_dead_states();
    assert_eq!(dfa.states().len(), 2);

    // the edge into the dead branch went with it: the remaining loop
    // state keeps one edge per symbol
    dfa.determinize();
    dfa.minimize();
    assert!(dfa.recognizes(&word("a")));
    assert!(dfa.recognizes(&word("aa")));
    assert!(dfa.recognizes(&word("ab")));
    assert!(!dfa.recognizes(&word("")));
    assert!(!dfa.recognizes(&word("b")));
}

#[test]
fn set_current_rejects_unknown_state() {
    let mut dfa: Dfa<char> = Dfa::new();
    assert!(dfa.set_current(0).is_ok());
    assert!(dfa.set_current(5).is_err());
    let s = dfa.add_state(true);
    assert!(dfa.set_current(s).is_ok());
}

#[test]
fn remove_state_cascades_incoming_edges() {
    let mut dfa: Dfa<char> = Dfa::new();
    let a = dfa.add_state(false);
    let b = dfa.add_state(true);
    dfa.create_transition_between(0, a, 'x');
    dfa.create_transition_between(a, b, 'y');
    dfa.create_transition_between(b, a, 'x');

    let removed = dfa.remove_state(a);
    assert!(removed.is_some());
    let (accept, out) = removed.unwrap();
    assert!(!accept);
    assert!(out.is_some());

    // no edge of any remaining state leads to the removed id
    for (_, edges) in dfa.transitions() {
        for e in edges {
            assert!(e.1 != a);
        }
    }
    assert!(dfa.remove_state(a).is_none());
}

#[test]
fn csv_exact_form() {
    let mut dfa: Dfa<char> = Dfa::new();
    let one = dfa.add_state(true);
    dfa.create_transition_between(0, one, 'a');
    assert_eq!(dfa.to_csv(), "State,a\n-><0>,<1>\n*<1>,-\n");
}

#[test]
fn dot_exact_form() {
    let mut dfa: Dfa<char> = Dfa::new();
    let one = dfa.add_state(true);
    dfa.create_transition_between(0, one, 'a');
    assert_eq!(
        dfa.to_dot(),
        "digraph FA {\nrankdir=\"LR\";\n0 -> {1} [label=a];\n1 [shape=doublecircle];\n}\n"
    );
}

#[test]
fn numeric_symbols() {
    let mut dfa: Dfa<u8> = Dfa::new();
    let a = dfa.add_state(false);
    let b = dfa.add_state(true);
    dfa.create_transition_between(0, a, 7u8);
    dfa.create_transition_between(a, b, 9u8);
    dfa.create_transition_between(0, b, 7u8);

    dfa.determinize();
    assert!(dfa.non_determinist_states().is_none());
    let accepted: Vec<u8> = vec![7u8];
    assert!(dfa.recognizes(&accepted));
    let accepted2: Vec<u8> = vec![7u8, 9u8];
    assert!(dfa.recognizes(&accepted2));
    let rejected: Vec<u8> = vec![9u8];
    assert!(!dfa.recognizes(&rejected));

    assert_eq!(dfa.to_csv().lines().next().unwrap(), "State,7,9");
}

#[test]
fn error_state_idempotent_language() {
    let lines = grammar_lines("<S> ::= a<A>\n<A> ::= b<A> | <>\n");
    let mut dfa = parse_grammar(&lines);
    dfa.determinize();
    dfa.minimize();
    let before_sink = dfa.states().len();
    dfa.insert_error_state();
    assert_eq!(dfa.states().len(), before_sink + 1);
    let before = dfa.states().len();
    let csv = dfa.to_csv();
    dfa.insert_error_state();
    // the automaton is already total: a second completion adds nothing
    assert_eq!(dfa.states().len(), before);
    assert_eq!(dfa.to_csv(), csv);
    assert!(dfa.recognizes(&word("a")));
    assert!(dfa.recognizes(&word("abb")));
    assert!(!dfa.recognizes(&word("ba")));
}

#[test]
fn pipeline_keeps_the_language() {
    let lines = grammar_lines("<S> ::= a<A> | a<B>\n<A> ::= b<A> | <>\n<B> ::= c<B> | <>\n");
    let mut dfa = parse_grammar(&lines);
    dfa.determinize();
    let samples = ["a", "ab", "abb", "ac", "acc", "", "b", "c", "abc", "acb", "aa"];
    let verdicts: Vec<bool> = samples.iter().map(|s| dfa.recognizes(&word(s))).collect();
    dfa.minimize();
    for (s, v) in samples.iter().zip(verdicts.iter()) {
        assert_eq!(dfa.recognizes(&word(s)), *v);
    }
    dfa.insert_error_state();
    for (s, v) in samples.iter().zip(verdicts.iter()) {
        assert_eq!(dfa.recognizes(&word(s)), *v);
    }
}

#[test]
fn determinize_twice_is_stable() {
    let lines = grammar_lines("<S> ::= a<A> | a<B>\n<A> ::= b<A> | <>\n<B> ::= c<B> | <>\n");
    let mut dfa = parse_grammar(&lines);
    dfa.determinize();
    let csv_once = dfa.to_csv();
    dfa.determinize();
    assert_eq!(dfa.to_csv(), csv_once);
}
