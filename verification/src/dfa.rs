//! The automaton container: states, transitions, alphabet, and the
//! primitive mutators that the construction passes are built from.

use vstd::prelude::*;

verus! {

use crate::digits::dec_digits;
use crate::digits::dec_chars;
use crate::seq_facts::lemma_filter_push;
use crate::seq_facts::lemma_filter_elems;
use crate::seq_facts::lemma_filter_keeps_distinct;

/// A state is a single boolean attribute: `true` means the state accepts.
pub type State = bool;

/// Alphabet symbols. The executable methods mirror equality, ordering and
/// rendering so that verified code can compare, sort and print symbols;
/// each carries a contract tying it to the spec-level value.
pub trait Transitable: Sized {
    /// The total order used when symbols are sorted for rendering.
    spec fn leq(self, other: Self) -> bool;

    /// The textual form of the symbol used by the renderers.
    spec fn rendered(self) -> Seq<char>;

    /// `leq` is total, transitive and antisymmetric.
    proof fn leq_laws(a: Self, b: Self, c: Self)
        ensures
            a.leq(b) || b.leq(a),
            a.leq(b) && b.leq(c) ==> a.leq(c),
            a.leq(b) && b.leq(a) ==> a == b,
    ;

    /// Executable equality, agreeing with spec equality.
    fn sym_eq(&self, other: &Self) -> (r: bool)
        ensures
            r == (self == other),
    ;

    /// Executable comparison, agreeing with `leq`.
    fn sym_le(&self, other: &Self) -> (r: bool)
        ensures
            r == self.leq(*other),
    ;

    /// An executable copy of the symbol.
    fn dup(&self) -> (r: Self)
        ensures
            r == self,
    ;

    /// The executable form of `rendered`.
    fn render(&self) -> (r: Vec<char>)
        ensures
            r@ == self.rendered(),
    ;
}

proof fn char_order_laws(a: char, b: char, c: char)
    ensures
        (a as u32 <= b as u32) || (b as u32 <= a as u32),
        (a as u32 <= b as u32) && (b as u32 <= c as u32) ==> (a as u32 <= c as u32),
        (a as u32 <= b as u32) && (b as u32 <= a as u32) ==> a == b,
{
}

proof fn u8_order_laws(a: u8, b: u8, c: u8)
    ensures
        a <= b || b <= a,
        a <= b && b <= c ==> a <= c,
        a <= b && b <= a ==> a == b,
{
}

impl Transitable for char {
    open spec fn leq(self, other: Self) -> bool {
        self as u32 <= other as u32
    }

    open spec fn rendered(self) -> Seq<char> {
        seq![self]
    }

    proof fn leq_laws(a: Self, b: Self, c: Self) {
        char_order_laws(a, b, c);
    }

    fn sym_eq(&self, other: &Self) -> (r: bool) {
        *self == *other
    }

    fn sym_le(&self, other: &Self) -> (r: bool) {
        (*self as u32) <= (*other as u32)
    }

    fn dup(&self) -> (r: Self) {
        *self
    }

    fn render(&self) -> (r: Vec<char>) {
        let mut v: Vec<char> = Vec::new();
        v.push(*self);
        proof {
            assert(v@ =~= seq![*self]);
        }
        v
    }
}

impl Transitable for u8 {
    open spec fn leq(self, other: Self) -> bool {
        self <= other
    }

    open spec fn rendered(self) -> Seq<char> {
        dec_digits(self as nat)
    }

    proof fn leq_laws(a: Self, b: Self, c: Self) {
        u8_order_laws(a, b, c);
    }

    fn sym_eq(&self, other: &Self) -> (r: bool) {
        *self == *other
    }

    fn sym_le(&self, other: &Self) -> (r: bool) {
        *self <= *other
    }

    fn dup(&self) -> (r: Self) {
        *self
    }

    fn render(&self) -> (r: Vec<char>) {
        dec_chars(*self as usize)
    }
}

/// Relies on `String`'s `FromIterator` over characters: the returned
/// string holds exactly the given characters, in order.
#[verifier::external_body]
pub(crate) fn chars_to_string(v: &Vec<char>) -> (s: String)
    ensures
        s@ == v@,
{
    v.iter().collect()
}

/// A labelled edge: the symbol consumed and the destination state id.
#[derive(Debug)]
pub struct Transition<T>(pub T, pub usize);

impl<T: Transitable> Transition<T> {
    pub fn new(by: T, dest: usize) -> (t: Self)
        ensures
            t.0 == by,
            t.1 == dest,
    {
        Transition(by, dest)
    }
}

/// A finite automaton over symbols `T`.
///
/// State ids are indices into `states`; a slot holds `Some(accept)` while
/// the state exists and `None` once it was removed, so ids are allocated
/// monotonically and never reused. `transitions[s]` is the set of edges
/// leaving `s` (no duplicates), and `alphabet` is the set of symbols that
/// appear on some edge.
pub struct Dfa<T> {
    states: Vec<Option<State>>,
    /// Index on `states` which is the initial state.
    initial: usize,
    /// The state the automaton is currently into; a cursor for builders.
    current: usize,
    transitions: Vec<Vec<Transition<T>>>,
    alphabet: Vec<T>,
}

impl<T> Dfa<T> {
    /// The state slots: one entry per id ever allocated.
    pub closed spec fn state_sq(self) -> Seq<Option<bool>> {
        self.states@
    }

    /// The edge lists, indexed by source state id.
    pub closed spec fn trans_sq(self) -> Seq<Seq<Transition<T>>> {
        self.transitions@.map_values(|v: Vec<Transition<T>>| v@)
    }

    /// The symbols appearing on edges, without duplicates.
    pub closed spec fn alpha_sq(self) -> Seq<T> {
        self.alphabet@
    }

    pub closed spec fn initial_id(self) -> int {
        self.initial as int
    }

    pub closed spec fn current_id(self) -> int {
        self.current as int
    }

    /// Number of ids ever allocated (live or removed).
    pub open spec fn n_slots(self) -> nat {
        self.state_sq().len()
    }

    /// `s` is the id of a state that currently exists.
    pub open spec fn live(self, s: int) -> bool {
        0 <= s < self.n_slots() && self.state_sq()[s] is Some
    }

    /// `s` exists and is accepting.
    pub open spec fn accepting(self, s: int) -> bool {
        0 <= s < self.n_slots() && self.state_sq()[s] == Some(true)
    }

    /// The edges leaving `s` (empty for ids out of range).
    pub open spec fn edges_at(self, s: int) -> Seq<Transition<T>> {
        if 0 <= s < self.trans_sq().len() {
            self.trans_sq()[s]
        } else {
            Seq::empty()
        }
    }

    /// There is an edge from `s` to `d` labelled `a`.
    pub open spec fn has_edge(self, s: int, a: T, d: int) -> bool {
        exists|i: int|
            0 <= i < self.edges_at(s).len() && #[trigger] self.edges_at(s)[i].0 == a
                && self.edges_at(s)[i].1 == d
    }

    /// Some edge of the automaton is labelled `a`.
    pub open spec fn symbol_used(self, a: T) -> bool {
        exists|s: int, d: int| self.has_edge(s, a, d)
    }

    /// `a` belongs to the alphabet.
    pub open spec fn alpha_has(self, a: T) -> bool {
        self.alpha_sq().contains(a)
    }

    /// Two distinct edges from `s` consume `a`: the non-determinism
    /// condition at `(s, a)`.
    pub open spec fn nondet_at(self, s: int, a: T) -> bool {
        exists|d1: int, d2: int|
            d1 != d2 && #[trigger] self.has_edge(s, a, d1) && #[trigger] self.has_edge(s, a, d2)
    }

    /// There is an outgoing edge from `s` on `a`.
    pub open spec fn has_out(self, s: int, a: T) -> bool {
        exists|d: int| self.has_edge(s, a, d)
    }

    /// Every existing state has an outgoing edge on every alphabet
    /// symbol: the automaton is total on its alphabet.
    pub open spec fn total_on_alphabet(self) -> bool {
        forall|s: int, x: T| self.live(s) && self.alpha_has(x) ==> #[trigger] self.has_out(s, x)
    }

    /// Some symbol is read non-deterministically at `s`.
    pub open spec fn has_nondet(self, s: int) -> bool {
        exists|x: T| self.nondet_at(s, x)
    }

    /// No state has two edges on the same symbol.
    pub open spec fn deterministic(self) -> bool {
        forall|s: int, a: T| !(#[trigger] self.nondet_at(s, a))
    }

    /// `ds` is exactly the set of destinations from `s` on `x`, at least
    /// two of them, without duplicates: one entry of a non-determinism
    /// report.
    pub open spec fn ndt_entry_ok(self, s: int, x: T, ds: Seq<usize>) -> bool {
        &&& ds.len() >= 2
        &&& forall|d: usize| #[trigger] ds.contains(d) <==> self.has_edge(s, x, d as int)
        &&& forall|i: int, j: int|
            0 <= i < ds.len() && 0 <= j < ds.len() && i != j ==> #[trigger] ds[i] != #[trigger] ds[j]
    }

    /// The ids of live states below `n`, in ascending order.
    pub open spec fn live_ids_below(self, n: int) -> Seq<int>
        decreases n,
    {
        if n <= 0 {
            Seq::empty()
        } else if self.live(n - 1) {
            self.live_ids_below(n - 1).push(n - 1)
        } else {
            self.live_ids_below(n - 1)
        }
    }

    /// The ids of all live states, in ascending order.
    pub open spec fn live_ids(self) -> Seq<int> {
        self.live_ids_below(self.n_slots() as int)
    }

    /// Automata whose edge lists agree everywhere agree on every edge
    /// fact and on which symbols are used.
    pub proof fn lemma_edges_pointwise(self, other: Self)
        requires
            forall|s: int|
                #![trigger self.edges_at(s)]
                #![trigger other.edges_at(s)]
                self.edges_at(s) == other.edges_at(s),
        ensures
            forall|s: int, x: T, d: int|
                #![trigger self.has_edge(s, x, d)]
                #![trigger other.has_edge(s, x, d)]
                self.has_edge(s, x, d) == other.has_edge(s, x, d),
            forall|x: T|
                #![trigger self.symbol_used(x)]
                #![trigger other.symbol_used(x)]
                self.symbol_used(x) == other.symbol_used(x),
    {
        assert forall|s: int, x: T, d: int|
            #![trigger self.has_edge(s, x, d)]
            #![trigger other.has_edge(s, x, d)]
            self.has_edge(s, x, d) == other.has_edge(s, x, d) by {
            assert(self.edges_at(s) == other.edges_at(s));
            if self.has_edge(s, x, d) {
                let i = choose|i: int|
                    0 <= i < self.edges_at(s).len() && #[trigger] self.edges_at(s)[i].0 == x
                        && self.edges_at(s)[i].1 == d;
                assert(other.edges_at(s)[i].0 == x && other.edges_at(s)[i].1 == d);
                assert(other.has_edge(s, x, d));
            }
            if other.has_edge(s, x, d) {
                let i = choose|i: int|
                    0 <= i < other.edges_at(s).len() && #[trigger] other.edges_at(s)[i].0 == x
                        && other.edges_at(s)[i].1 == d;
                assert(self.edges_at(s)[i].0 == x && self.edges_at(s)[i].1 == d);
                assert(self.has_edge(s, x, d));
            }
        }
        assert forall|x: T|
            #![trigger self.symbol_used(x)]
            #![trigger other.symbol_used(x)]
            self.symbol_used(x) == other.symbol_used(x) by {
            if self.symbol_used(x) {
                let (s, d) = choose|s: int, d: int| self.has_edge(s, x, d);
                assert(other.has_edge(s, x, d));
                assert(other.symbol_used(x));
            }
            if other.symbol_used(x) {
                let (s, d) = choose|s: int, d: int| other.has_edge(s, x, d);
                assert(self.has_edge(s, x, d));
                assert(self.symbol_used(x));
            }
        }
    }

    /// Automata with equal edge-list tables agree on every edge fact.
    pub proof fn lemma_same_trans(self, other: Self)
        requires
            self.trans_sq() == other.trans_sq(),
        ensures
            forall|s: int|
                #![trigger self.edges_at(s)]
                #![trigger other.edges_at(s)]
                self.edges_at(s) == other.edges_at(s),
            forall|s: int, x: T, d: int|
                #![trigger self.has_edge(s, x, d)]
                #![trigger other.has_edge(s, x, d)]
                self.has_edge(s, x, d) == other.has_edge(s, x, d),
            forall|x: T|
                #![trigger self.symbol_used(x)]
                #![trigger other.symbol_used(x)]
                self.symbol_used(x) == other.symbol_used(x),
    {
        self.lemma_edges_pointwise(other);
    }

    /// An automaton whose edge table is this one's with one empty list
    /// appended has the same edges everywhere.
    pub proof fn lemma_pushed_state_edges(self, other: Self)
        requires
            other.trans_sq() == self.trans_sq().push(Seq::<Transition<T>>::empty()),
        ensures
            forall|s: int|
                #![trigger self.edges_at(s)]
                #![trigger other.edges_at(s)]
                self.edges_at(s) == other.edges_at(s),
    {
        assert forall|s: int|
            #![trigger self.edges_at(s)]
            #![trigger other.edges_at(s)]
            self.edges_at(s) == other.edges_at(s) by {
            if 0 <= s < self.trans_sq().len() {
                assert(other.edges_at(s) == self.edges_at(s));
            } else if s == self.trans_sq().len() {
                assert(other.edges_at(s) =~= Seq::<Transition<T>>::empty());
                assert(self.edges_at(s) =~= Seq::<Transition<T>>::empty());
            }
        }
    }

    /// The structural invariant: every public operation preserves it.
    ///
    /// - one edge list per state slot, and the cursors are in range;
    /// - every edge joins two existing states, and its symbol is in the
    ///   alphabet;
    /// - edge lists and the alphabet hold no duplicates;
    /// - every alphabet symbol appears on some edge.
    pub open spec fn wf(self) -> bool {
        &&& self.trans_sq().len() == self.n_slots()
        &&& 0 <= self.initial_id() < self.n_slots()
        &&& 0 <= self.current_id() < self.n_slots()
        &&& forall|s: int, x: T, d: int|
            #[trigger] self.has_edge(s, x, d) ==> self.live(s) && self.live(d) && self.alpha_has(
                x,
            )
        &&& forall|s: int, i: int, j: int|
            0 <= s < self.n_slots() && 0 <= i < self.edges_at(s).len() && 0 <= j
                < self.edges_at(s).len() && i != j ==> #[trigger] self.edges_at(s)[i]
                != #[trigger] self.edges_at(s)[j]
        &&& forall|i: int, j: int|
            0 <= i < self.alpha_sq().len() && 0 <= j < self.alpha_sq().len() && i != j
                ==> #[trigger] self.alpha_sq()[i] != #[trigger] self.alpha_sq()[j]
        &&& forall|k: int|
            0 <= k < self.alpha_sq().len() ==> self.symbol_used(#[trigger] self.alpha_sq()[k])
    }
}

impl<T: Transitable> Dfa<T> {
    /// Create a new automaton with a single non-accepting state (id 0)
    /// that is both initial and current.
    pub fn new() -> (d: Self)
        ensures
            d.wf(),
            d.n_slots() == 1,
            d.state_sq()[0] == Some(false),
            d.initial_id() == 0,
            d.current_id() == 0,
            d.alpha_sq().len() == 0,
            d.edges_at(0).len() == 0,
    {
        let d = Dfa {
            states: vec![Some(false)],
            initial: 0,
            current: 0,
            transitions: vec![Vec::new()],
            alphabet: Vec::new(),
        };
        proof {
            assert(d.trans_sq() =~= seq![Seq::<Transition<T>>::empty()]);
        }
        d
    }

    /// Every edge joins two existing states: its source and its
    /// destination resolve.
    pub proof fn lemma_edges_within_states(self, s: int, x: T, d: int)
        requires
            self.wf(),
            self.has_edge(s, x, d),
        ensures
            self.live(s),
            self.live(d),
    {
    }

    /// The alphabet is exactly the set of symbols that appear on some
    /// edge.
    pub proof fn lemma_alphabet_exact(self, x: T)
        requires
            self.wf(),
        ensures
            self.alpha_has(x) <==> self.symbol_used(x),
    {
        if self.alpha_has(x) {
            let k = choose|k: int| 0 <= k < self.alpha_sq().len() && self.alpha_sq()[k] == x;
            assert(self.symbol_used(self.alpha_sq()[k]));
        }
        if self.symbol_used(x) {
            let (s, d) = choose|s: int, d: int| self.has_edge(s, x, d);
            assert(self.alpha_has(x));
        }
    }

    /// The live states as `(id, accept)` pairs, in ascending id order.
    pub fn states(&self) -> (r: Vec<(usize, bool)>)
        ensures
            r@.map_values(|p: (usize, bool)| p.0 as int) == self.live_ids(),
            forall|k: int|
                0 <= k < r@.len() ==> (#[trigger] r@[k]).1 == self.accepting(r@[k].0 as int),
    {
        let mut r: Vec<(usize, bool)> = Vec::new();
        let n = self.states.len();
        for i in 0..n
            invariant
                n == self.n_slots(),
                r@.map_values(|p: (usize, bool)| p.0 as int) == self.live_ids_below(i as int),
                forall|k: int|
                    0 <= k < r@.len() ==> (#[trigger] r@[k]).1 == self.accepting(r@[k].0 as int),
        {
            if let Some(acc) = self.states[i] {
                r.push((i, acc));
                proof {
                    assert(r@.map_values(|p: (usize, bool)| p.0 as int) =~= self.live_ids_below(
                        i + 1,
                    ));
                }
            } else {
                proof {
                    assert(r@.map_values(|p: (usize, bool)| p.0 as int) =~= self.live_ids_below(
                        i + 1,
                    ));
                }
            }
        }
        r
    }

    /// Allocate a fresh state id, strictly greater than every id allocated
    /// before, and insert it with the given accept flag.
    #[verifier::rlimit(60)]
    pub fn add_state(&mut self, state: State) -> (index: usize)
        requires
            old(self).wf(),
        ensures
            final(self).wf(),
            index == old(self).n_slots(),
            final(self).state_sq() == old(self).state_sq().push(Some(state)),
            final(self).trans_sq() == old(self).trans_sq().push(Seq::<Transition<T>>::empty()),
            final(self).alpha_sq() == old(self).alpha_sq(),
            final(self).initial_id() == old(self).initial_id(),
            final(self).current_id() == old(self).current_id(),
            final(self).live(index as int),
            final(self).accepting(index as int) == state,
    {
        let index = self.states.len();
        self.states.push(Some(state));
        self.transitions.push(Vec::new());
        proof {
            assert(self.trans_sq() =~= old(self).trans_sq().push(
                Seq::<Transition<T>>::empty(),
            ));
            assert forall|s: int|
                #![trigger self.edges_at(s)]
                #![trigger old(self).edges_at(s)]
                self.edges_at(s) == old(self).edges_at(s) by {
                if 0 <= s < old(self).trans_sq().len() {
                    assert(self.edges_at(s) == old(self).edges_at(s));
                } else if s == index as int {
                    assert(self.edges_at(s) =~= Seq::<Transition<T>>::empty());
                }
            }
            (*old(self)).lemma_edges_pointwise(*self);
            assert(self.alpha_sq() == old(self).alpha_sq());
            assert forall|i: int, j: int|
                0 <= i < self.alpha_sq().len() && 0 <= j < self.alpha_sq().len() && i != j
                implies #[trigger] self.alpha_sq()[i] != #[trigger] self.alpha_sq()[j] by {
                assert(old(self).alpha_sq()[i] != old(self).alpha_sq()[j]);
            }
            assert forall|k: int| 0 <= k < self.alpha_sq().len() implies self.symbol_used(
                #[trigger] self.alpha_sq()[k],
            ) by {
                assert(old(self).symbol_used(old(self).alpha_sq()[k]));
            }
            assert forall|s: int, x: T, d: int| #[trigger] self.has_edge(s, x, d) implies self.live(
                s,
            ) && self.live(d) && self.alpha_has(x) by {
                assert(old(self).has_edge(s, x, d));
                assert(old(self).live(s) && old(self).live(d) && old(self).alpha_has(x));
            }
            assert(self.trans_sq().len() == self.n_slots());
            assert(0 <= self.initial_id() < self.n_slots());
            assert(0 <= self.current_id() < self.n_slots());
            assert forall|s: int, i: int, j: int|
                0 <= s < self.n_slots() && 0 <= i < self.edges_at(s).len() && 0 <= j
                    < self.edges_at(s).len() && i != j implies #[trigger] self.edges_at(s)[i]
                != #[trigger] self.edges_at(s)[j] by {
                assert(self.edges_at(s) == old(self).edges_at(s));
                assert(old(self).edges_at(s)[i] != old(self).edges_at(s)[j]);
            }
            assert(self.wf());
        }
        index
    }

    /// Make `i` the initial state.
    pub fn set_initial(&mut self, i: usize)
        requires
            old(self).wf(),
            old(self).live(i as int),
        ensures
            final(self).wf(),
            final(self).initial_id() == i as int,
            final(self).state_sq() == old(self).state_sq(),
            final(self).trans_sq() == old(self).trans_sq(),
            final(self).alpha_sq() == old(self).alpha_sq(),
            final(self).current_id() == old(self).current_id(),
    {
        self.initial = i;
        proof {
            (*old(self)).lemma_same_trans(*self);
        }
    }

    /// The initial state's id.
    pub fn initial(&self) -> (r: usize)
        ensures
            r as int == self.initial_id(),
    {
        self.initial
    }

    /// Set the cursor back to the initial state.
    pub fn rewind(&mut self)
        requires
            old(self).wf(),
        ensures
            final(self).wf(),
            final(self).current_id() == old(self).initial_id(),
            final(self).state_sq() == old(self).state_sq(),
            final(self).trans_sq() == old(self).trans_sq(),
            final(self).alpha_sq() == old(self).alpha_sq(),
            final(self).initial_id() == old(self).initial_id(),
    {
        self.current = self.initial;
        proof {
            (*old(self)).lemma_same_trans(*self);
        }
    }

    /// The cursor's id.
    pub fn current(&self) -> (r: usize)
        ensures
            r as int == self.current_id(),
    {
        self.current
    }

    /// Whether state `index` exists and accepts; `false` for an id that
    /// does not resolve.
    pub fn state_accept(&self, index: usize) -> (r: bool)
        ensures
            r == self.accepting(index as int),
    {
        if index < self.states.len() {
            match self.states[index] {
                Some(acc) => acc,
                None => false,
            }
        } else {
            false
        }
    }

    /// Move the cursor to `t`; rejected when `t` is no existing state.
    pub fn set_current(&mut self, t: usize) -> (r: Result<(), &'static str>)
        requires
            old(self).wf(),
        ensures
            final(self).wf(),
            r is Ok <==> old(self).live(t as int),
            r is Ok ==> final(self).current_id() == t as int,
            r is Err ==> final(self).current_id() == old(self).current_id(),
            final(self).state_sq() == old(self).state_sq(),
            final(self).trans_sq() == old(self).trans_sq(),
            final(self).alpha_sq() == old(self).alpha_sq(),
            final(self).initial_id() == old(self).initial_id(),
    {
        let r: Result<(), &'static str> = if t < self.states.len() && self.states[t].is_some() {
            self.current = t;
            Ok(())
        } else {
            Err("Non existant state")
        };
        proof {
            (*old(self)).lemma_same_trans(*self);
        }
        r
    }

    /// The alphabet: each symbol that appears on some edge, once.
    pub fn alphabet(&self) -> (r: &Vec<T>)
        ensures
            r@ == self.alpha_sq(),
    {
        &self.alphabet
    }

    /// Set the accept flag of the state under the cursor. When the cursor
    /// points at a removed slot, the state is re-created with this flag
    /// and no edges.
    pub fn set_current_state_accept(&mut self, accept: bool)
        requires
            old(self).wf(),
        ensures
            final(self).wf(),
            final(self).state_sq() == old(self).state_sq().update(
                old(self).current_id(),
                Some(accept),
            ),
            final(self).trans_sq() == old(self).trans_sq(),
            final(self).alpha_sq() == old(self).alpha_sq(),
            final(self).initial_id() == old(self).initial_id(),
            final(self).current_id() == old(self).current_id(),
    {
        let c = self.current;
        self.states.set(c, Some(accept));
        proof {
            (*old(self)).lemma_same_trans(*self);
        }
    }

    /// Add the edge `trans` to `state`'s outgoing set. The symbol joins
    /// the alphabet; a duplicate edge collapses into the existing one.
    pub fn add_transition_to(&mut self, state: usize, trans: Transition<T>)
        requires
            old(self).wf(),
            old(self).live(state as int),
            old(self).live(trans.1 as int),
        ensures
            final(self).wf(),
            final(self).state_sq() == old(self).state_sq(),
            final(self).initial_id() == old(self).initial_id(),
            final(self).current_id() == old(self).current_id(),
            forall|s: int|
                s != state as int ==> #[trigger] final(self).edges_at(s) == old(self).edges_at(s),
            final(self).edges_at(state as int) == (if old(self).has_edge(
                state as int,
                trans.0,
                trans.1 as int,
            ) {
                old(self).edges_at(state as int)
            } else {
                old(self).edges_at(state as int).push(trans)
            }),
            forall|s: int, x: T, d: int|
                #![trigger final(self).has_edge(s, x, d)]
                #![trigger old(self).has_edge(s, x, d)]
                final(self).has_edge(s, x, d) <==> (old(self).has_edge(s, x, d) || (s
                    == state as int && x == trans.0 && d == trans.1 as int)),
            forall|x: T|
                #![trigger final(self).alpha_has(x)]
                #![trigger old(self).alpha_has(x)]
                final(self).alpha_has(x) <==> (old(self).alpha_has(x) || x == trans.0),
            final(self).alpha_sq() == (if old(self).alpha_has(trans.0) {
                old(self).alpha_sq()
            } else {
                old(self).alpha_sq().push(trans.0)
            }),
    {
        let ghost pre = *self;
        let mut have_sym: bool = false;
        let alen = self.alphabet.len();
        for k in 0..alen
            invariant
                alen == self.alpha_sq().len(),
                *self == pre,
                have_sym == (exists|j: int| 0 <= j < k && #[trigger] self.alpha_sq()[j] == trans.0),
        {
            if self.alphabet[k].sym_eq(&trans.0) {
                have_sym = true;
            }
        }
        proof {
            assert(have_sym == pre.alpha_has(trans.0));
        }
        if !have_sym {
            self.alphabet.push(trans.0.dup());
        }
        let ghost mid = *self;
        let mut have_edge: bool = false;
        let elen = self.transitions[state].len();
        for k in 0..elen
            invariant
                *self == mid,
                state < self.trans_sq().len(),
                elen == self.edges_at(state as int).len(),
                have_edge == (exists|j: int|
                    0 <= j < k && #[trigger] self.edges_at(state as int)[j].0 == trans.0
                        && self.edges_at(state as int)[j].1 == trans.1),
        {
            let e = &self.transitions[state];
            if e[k].0.sym_eq(&trans.0) && e[k].1 == trans.1 {
                have_edge = true;
            }
        }
        proof {
            assert(have_edge == pre.has_edge(state as int, trans.0, trans.1 as int));
        }
        if !have_edge {
            self.transitions[state].push(trans);
            proof {
                assert(self.trans_sq() =~= pre.trans_sq().update(
                    state as int,
                    pre.edges_at(state as int).push(trans),
                ));
            }
        }
        proof {
            let post = *self;
            let st = state as int;
            assert forall|s: int| s != st implies #[trigger] post.edges_at(s) == pre.edges_at(
                s,
            ) by {}
            assert(post.edges_at(st) == (if pre.has_edge(st, trans.0, trans.1 as int) {
                pre.edges_at(st)
            } else {
                pre.edges_at(st).push(trans)
            }));
            assert forall|s: int, x: T, d: int|
                #![trigger post.has_edge(s, x, d)]
                #![trigger pre.has_edge(s, x, d)]
                post.has_edge(s, x, d) <==> (pre.has_edge(s, x, d) || (s == st && x == trans.0
                && d == trans.1 as int)) by {
                if s != st {
                    if post.has_edge(s, x, d) {
                        let i = choose|i: int|
                            0 <= i < post.edges_at(s).len() && #[trigger] post.edges_at(s)[i].0
                                == x && post.edges_at(s)[i].1 == d;
                        assert(pre.edges_at(s)[i].0 == x && pre.edges_at(s)[i].1 == d);
                        assert(pre.has_edge(s, x, d));
                    }
                    if pre.has_edge(s, x, d) {
                        let i = choose|i: int|
                            0 <= i < pre.edges_at(s).len() && #[trigger] pre.edges_at(s)[i].0
                                == x && pre.edges_at(s)[i].1 == d;
                        assert(post.edges_at(s)[i].0 == x && post.edges_at(s)[i].1 == d);
                        assert(post.has_edge(s, x, d));
                    }
                } else {
                    let pl = pre.edges_at(st).len() as int;
                    if post.has_edge(st, x, d) {
                        let i = choose|i: int|
                            0 <= i < post.edges_at(st).len() && #[trigger] post.edges_at(st)[i].0
                                == x && post.edges_at(st)[i].1 == d;
                        if i < pl {
                            assert(pre.edges_at(st)[i].0 == x && pre.edges_at(st)[i].1 == d);
                            assert(pre.has_edge(st, x, d));
                        } else {
                            assert(post.edges_at(st)[i] == trans);
                        }
                    }
                    if pre.has_edge(st, x, d) {
                        let i = choose|i: int|
                            0 <= i < pre.edges_at(st).len() && #[trigger] pre.edges_at(st)[i].0
                                == x && pre.edges_at(st)[i].1 == d;
                        assert(post.edges_at(st)[i].0 == x && post.edges_at(st)[i].1 == d);
                        assert(post.has_edge(st, x, d));
                    }
                    if x == trans.0 && d == trans.1 as int {
                        if pre.has_edge(st, trans.0, trans.1 as int) {
                            assert(pre.has_edge(st, x, d));
                        } else {
                            assert(post.edges_at(st)[pl].0 == x && post.edges_at(st)[pl].1 == d);
                            assert(post.has_edge(st, x, d));
                        }
                    }
                }
            }
            assert forall|x: T|
                #![trigger post.alpha_has(x)]
                #![trigger pre.alpha_has(x)]
                post.alpha_has(x) <==> (pre.alpha_has(x) || x == trans.0) by {
                let al = pre.alpha_sq().len() as int;
                if post.alpha_has(x) {
                    let i = choose|i: int|
                        0 <= i < post.alpha_sq().len() && post.alpha_sq()[i] == x;
                    if i < al {
                        assert(pre.alpha_sq()[i] == x);
                        assert(pre.alpha_has(x));
                    } else {
                        assert(x == trans.0);
                    }
                }
                if pre.alpha_has(x) {
                    let i = choose|i: int| 0 <= i < pre.alpha_sq().len() && pre.alpha_sq()[i] == x;
                    assert(post.alpha_sq()[i] == x);
                    assert(post.alpha_has(x));
                }
                if x == trans.0 && !pre.alpha_has(x) {
                    assert(post.alpha_sq()[al] == x);
                    assert(post.alpha_has(x));
                }
            }
            // well-formedness of the result
            assert forall|s: int, x: T, d: int| #[trigger] post.has_edge(s, x, d) implies post.live(
                s,
            ) && post.live(d) && post.alpha_has(x) by {
                if pre.has_edge(s, x, d) {
                    assert(pre.live(s) && pre.live(d) && pre.alpha_has(x));
                }
            }
            assert forall|s: int, i: int, j: int|
                0 <= s < post.n_slots() && 0 <= i < post.edges_at(s).len() && 0 <= j
                    < post.edges_at(s).len() && i != j implies #[trigger] post.edges_at(s)[i]
                != #[trigger] post.edges_at(s)[j] by {
                let pl = pre.edges_at(s).len() as int;
                if i < pl && j < pl {
                    assert(pre.edges_at(s)[i] != pre.edges_at(s)[j]);
                } else if s == st && !pre.has_edge(st, trans.0, trans.1 as int) {
                    if i == pl {
                        assert(post.edges_at(s)[i] == trans);
                        if pre.edges_at(s)[j].0 == trans.0 && pre.edges_at(s)[j].1 == trans.1 {
                            assert(pre.has_edge(st, trans.0, trans.1 as int));
                        }
                    } else {
                        assert(post.edges_at(s)[j] == trans);
                        if pre.edges_at(s)[i].0 == trans.0 && pre.edges_at(s)[i].1 == trans.1 {
                            assert(pre.has_edge(st, trans.0, trans.1 as int));
                        }
                    }
                }
            }
            assert forall|i: int, j: int|
                0 <= i < post.alpha_sq().len() && 0 <= j < post.alpha_sq().len() && i != j
                implies #[trigger] post.alpha_sq()[i] != #[trigger] post.alpha_sq()[j] by {
                let al = pre.alpha_sq().len() as int;
                if i < al && j < al {
                    assert(pre.alpha_sq()[i] != pre.alpha_sq()[j]);
                } else if !pre.alpha_has(trans.0) {
                    if i == al {
                        if pre.alpha_sq()[j] == trans.0 {
                            assert(pre.alpha_has(trans.0));
                        }
                    } else {
                        if pre.alpha_sq()[i] == trans.0 {
                            assert(pre.alpha_has(trans.0));
                        }
                    }
                }
            }
            assert forall|k: int| 0 <= k < post.alpha_sq().len() implies post.symbol_used(
                #[trigger] post.alpha_sq()[k],
            ) by {
                let x = post.alpha_sq()[k];
                if k < pre.alpha_sq().len() {
                    assert(pre.symbol_used(x));
                    let (s, d) = choose|s: int, d: int| pre.has_edge(s, x, d);
                    assert(post.has_edge(s, x, d));
                } else {
                    assert(x == trans.0);
                    assert(post.has_edge(st, trans.0, trans.1 as int));
                }
            }
        }
    }

    /// A copy of an edge list, symbol by symbol.
    fn clone_edges(v: &Vec<Transition<T>>) -> (r: Vec<Transition<T>>)
        ensures
            r@ == v@,
    {
        let mut r: Vec<Transition<T>> = Vec::new();
        let n = v.len();
        for k in 0..n
            invariant
                n == v@.len(),
                r@ =~= v@.subrange(0, k as int),
        {
            r.push(Transition(v[k].0.dup(), v[k].1));
            proof {
                assert(r@ =~= v@.subrange(0, k + 1));
            }
        }
        proof {
            assert(v@.subrange(0, n as int) =~= v@);
        }
        r
    }

    /// The edges of `v` that do not lead to state `index`.
    fn edges_not_into(v: &Vec<Transition<T>>, index: usize) -> (r: Vec<Transition<T>>)
        ensures
            r@ == v@.filter((|t: Transition<T>| t.1 != index)),
    {
        let mut r: Vec<Transition<T>> = Vec::new();
        let n = v.len();
        for k in 0..n
            invariant
                n == v@.len(),
                r@ == v@.subrange(0, k as int).filter((|t: Transition<T>| t.1 != index)),
        {
            if v[k].1 != index {
                r.push(Transition(v[k].0.dup(), v[k].1));
            }
            proof {
                lemma_filter_push(
                    v@.subrange(0, k as int),
                    v@[k as int],
                    (|t: Transition<T>| t.1 != index),
                );
                assert(v@.subrange(0, k + 1) =~= v@.subrange(0, k as int).push(v@[k as int]));
                assert(r@ =~= v@.subrange(0, k + 1).filter((|t: Transition<T>| t.1 != index)));
            }
        }
        proof {
            assert(v@.subrange(0, n as int) =~= v@);
        }
        r
    }

    /// Whether any edge of the automaton consumes `a`.
    fn symbol_in_use(&self, a: &T) -> (r: bool)
        ensures
            r == self.symbol_used(*a),
    {
        let n = self.transitions.len();
        for s in 0..n
            invariant
                n == self.trans_sq().len(),
                forall|t: int, j: int|
                    #![trigger self.edges_at(t)[j]]
                    0 <= t < s && 0 <= j < self.edges_at(t).len() ==> self.edges_at(t)[j].0 != *a,
        {
            let row = &self.transitions[s];
            let m = row.len();
            for j in 0..m
                invariant
                    n == self.trans_sq().len(),
                    s < n,
                    m == self.edges_at(s as int).len(),
                    row@ == self.edges_at(s as int),
                    forall|t: int, j2: int|
                        #![trigger self.edges_at(t)[j2]]
                        0 <= t < s && 0 <= j2 < self.edges_at(t).len() ==> self.edges_at(t)[j2].0
                            != *a,
                    forall|j2: int|
                        0 <= j2 < j ==> (#[trigger] self.edges_at(s as int)[j2]).0 != *a,
            {
                if row[j].0.sym_eq(a) {
                    proof {
                        assert(self.has_edge(s as int, *a, row@[j as int].1 as int));
                    }
                    return true;
                }
            }
        }
        proof {
            assert forall|s: int, d: int| !self.has_edge(s, *a, d) by {
                if self.has_edge(s, *a, d) {
                    let i = choose|i: int|
                        0 <= i < self.edges_at(s).len() && #[trigger] self.edges_at(s)[i].0 == *a
                            && self.edges_at(s)[i].1 == d;
                    assert(0 <= s < n);
                    assert(self.edges_at(s)[i].0 != *a);
                }
            }
        }
        false
    }

    /// The outgoing edge lists, as `(source, edges)` pairs in ascending
    /// source order; sources without edges are left out.
    pub fn transitions(&self) -> (r: Vec<(usize, Vec<Transition<T>>)>)
        ensures
            forall|k: int|
                0 <= k < r@.len() ==> {
                    &&& (#[trigger] r@[k]).1@ == self.edges_at(r@[k].0 as int)
                    &&& r@[k].1@.len() > 0
                },
            forall|k1: int, k2: int|
                0 <= k1 < k2 < r@.len() ==> (#[trigger] r@[k1]).0 < (#[trigger] r@[k2]).0,
            forall|s: int|
                #[trigger] self.edges_at(s).len() > 0 ==> exists|k: int|
                    0 <= k < r@.len() && (#[trigger] r@[k]).0 == s,
    {
        let mut r: Vec<(usize, Vec<Transition<T>>)> = Vec::new();
        let n = self.transitions.len();
        for s in 0..n
            invariant
                n == self.trans_sq().len(),
                forall|k: int|
                    0 <= k < r@.len() ==> {
                        &&& (#[trigger] r@[k]).1@ == self.edges_at(r@[k].0 as int)
                        &&& r@[k].1@.len() > 0
                        &&& 0 <= r@[k].0 < s
                    },
                forall|k1: int, k2: int|
                    0 <= k1 < k2 < r@.len() ==> (#[trigger] r@[k1]).0 < (#[trigger] r@[k2]).0,
                forall|t: int|
                    t < s && #[trigger] self.edges_at(t).len() > 0 ==> exists|k: int|
                        0 <= k < r@.len() && (#[trigger] r@[k]).0 == t,
        {
            if self.transitions[s].len() > 0 {
                let row = Self::clone_edges(&self.transitions[s]);
                let ghost r0 = r@;
                let ghost rowg = row@;
                r.push((s, row));
                proof {
                    assert(rowg == self.edges_at(s as int));
                    assert forall|t: int|
                        t < s + 1 && #[trigger] self.edges_at(t).len() > 0 implies exists|k: int|
                        0 <= k < r@.len() && (#[trigger] r@[k]).0 == t by {
                        if t == s as int {
                            assert(r@[r@.len() - 1].0 == t);
                        } else {
                            let k = choose|k: int| 0 <= k < r0.len() && (#[trigger] r0[k]).0 == t;
                            assert(r@[k] == r0[k]);
                            assert(r@[k].0 == t);
                        }
                    }
                }
            }
        }
        proof {
            assert forall|s2: int| #[trigger] self.edges_at(s2).len() > 0 implies exists|k: int|
                0 <= k < r@.len() && (#[trigger] r@[k]).0 == s2 by {
                assert(s2 < n);
            }
        }
        r
    }

    /// How many state ids were ever allocated.
    pub(crate) fn state_slot_count(&self) -> (r: usize)
        ensures
            r == self.n_slots(),
    {
        self.states.len()
    }

    /// A copy of the alphabet vector.
    pub(crate) fn clone_alphabet(&self) -> (r: Vec<T>)
        ensures
            r@ == self.alpha_sq(),
    {
        let mut r: Vec<T> = Vec::new();
        let n = self.alphabet.len();
        for k in 0..n
            invariant
                n == self.alpha_sq().len(),
                r@ =~= self.alpha_sq().subrange(0, k as int),
        {
            r.push(self.alphabet[k].dup());
            proof {
                assert(r@ =~= self.alpha_sq().subrange(0, k + 1));
            }
        }
        proof {
            assert(self.alpha_sq().subrange(0, n as int) =~= self.alpha_sq());
        }
        r
    }

    /// Whether state `s` currently exists.
    pub(crate) fn state_is_live(&self, s: usize) -> (r: bool)
        ensures
            r == self.live(s as int),
    {
        s < self.states.len() && self.states[s].is_some()
    }

    /// How many edges leave `s`.
    pub(crate) fn edge_count(&self, s: usize) -> (r: usize)
        ensures
            r == self.edges_at(s as int).len(),
    {
        if s < self.transitions.len() {
            self.transitions[s].len()
        } else {
            proof {
                assert(self.edges_at(s as int) =~= Seq::<Transition<T>>::empty());
            }
            0
        }
    }

    /// The symbol and destination of the `j`-th edge leaving `s`.
    pub(crate) fn edge_at(&self, s: usize, j: usize) -> (r: (&T, usize))
        requires
            j < self.edges_at(s as int).len(),
        ensures
            *r.0 == self.edges_at(s as int)[j as int].0,
            r.1 == self.edges_at(s as int)[j as int].1,
    {
        (&self.transitions[s][j].0, self.transitions[s][j].1)
    }

    /// The destination of the `j`-th edge leaving `s`.
    pub(crate) fn edge_dest(&self, s: usize, j: usize) -> (r: usize)
        requires
            j < self.edges_at(s as int).len(),
        ensures
            r == self.edges_at(s as int)[j as int].1,
    {
        self.transitions[s][j].1
    }

    /// The destinations reachable from `s` by consuming `a`, without
    /// duplicates.
    pub(crate) fn dests_on(&self, s: usize, a: &T) -> (r: Vec<usize>)
        requires
            self.wf(),
        ensures
            forall|d: usize| #[trigger] r@.contains(d) <==> self.has_edge(s as int, *a, d as int),
            forall|i: int, j: int|
                0 <= i < r@.len() && 0 <= j < r@.len() && i != j ==> #[trigger] r@[i]
                    != #[trigger] r@[j],
            r@.len() >= 2 <==> self.nondet_at(s as int, *a),
            r@.len() == 0 <==> !exists|d: int| self.has_edge(s as int, *a, d),
    {
        let ghost av = *a;
        let ghost pick = (|t: Transition<T>| t.0 == av);
        let ghost todest = (|t: Transition<T>| t.1);
        let mut r: Vec<usize> = Vec::new();
        if s < self.transitions.len() {
            let row = &self.transitions[s];
            let m = row.len();
            for j in 0..m
                invariant
                    m == row@.len(),
                    av == *a,
                    pick == (|t: Transition<T>| t.0 == av),
                    todest == (|t: Transition<T>| t.1),
                    r@ == row@.subrange(0, j as int).filter(pick).map_values(todest),
            {
                proof {
                    lemma_filter_push(row@.subrange(0, j as int), row@[j as int], pick);
                    assert(row@.subrange(0, j + 1) =~= row@.subrange(0, j as int).push(
                        row@[j as int],
                    ));
                }
                if row[j].0.sym_eq(a) {
                    r.push(row[j].1);
                    proof {
                        let sub1 = row@.subrange(0, j + 1);
                        let sub0 = row@.subrange(0, j as int);
                        let x = row@[j as int];
                        assert(x.0 == av);
                        assert(pick(x));
                        assert(sub1.filter(pick) == sub0.filter(pick) + seq![x]);
                        assert(sub1.filter(pick).map_values(todest) =~= sub0.filter(
                            pick,
                        ).map_values(todest).push(x.1));
                        assert(r@ == sub1.filter(pick).map_values(todest));
                    }
                } else {
                    proof {
                        let sub1 = row@.subrange(0, j + 1);
                        let sub0 = row@.subrange(0, j as int);
                        let x = row@[j as int];
                        assert(!pick(x));
                        assert(sub1.filter(pick) == sub0.filter(pick)
                            + Seq::<Transition<T>>::empty());
                        assert(sub1.filter(pick) =~= sub0.filter(pick));
                        assert(sub1.filter(pick).map_values(todest) =~= sub0.filter(
                            pick,
                        ).map_values(todest));
                        assert(r@ == sub1.filter(pick).map_values(todest));
                    }
                }
            }
            proof {
                assert(row@.subrange(0, m as int) =~= row@);
                assert(row@ == self.edges_at(s as int));
            }
        } else {
            proof {
                assert(self.edges_at(s as int) =~= Seq::<Transition<T>>::empty());
                assert(r@ =~= self.edges_at(s as int).filter(pick).map_values(todest));
            }
        }
        proof {
            let ed = self.edges_at(s as int);
            let fl = ed.filter(pick);
            assert(r@ == fl.map_values(todest));
            lemma_filter_elems(ed, pick);
            lemma_filter_keeps_distinct(ed, pick);
            // a destination is listed exactly when the edge exists
            assert forall|d: usize| #[trigger] r@.contains(d) <==> self.has_edge(
                s as int,
                *a,
                d as int,
            ) by {
                if r@.contains(d) {
                    let i = choose|i: int| 0 <= i < r@.len() && r@[i] == d;
                    assert(r@[i] == fl[i].1);
                    assert(pick(fl[i])) by {
                        Seq::lemma_filter_pred(ed, pick, i);
                    }
                    assert(ed.contains(fl[i]));
                    let k = choose|k: int| 0 <= k < ed.len() && ed[k] == fl[i];
                    assert(ed[k].0 == *a && ed[k].1 == d);
                    assert(self.has_edge(s as int, *a, d as int));
                }
                if self.has_edge(s as int, *a, d as int) {
                    let k = choose|k: int|
                        0 <= k < ed.len() && #[trigger] ed[k].0 == *a && ed[k].1 == d as int;
                    assert(pick(ed[k]));
                    Seq::lemma_filter_contains(ed, pick, k);
                    assert(fl.contains(ed[k]));
                    let i = choose|i: int| 0 <= i < fl.len() && fl[i] == ed[k];
                    assert(r@[i] == d);
                    assert(r@.contains(d));
                }
            }
            // distinct destinations
            assert forall|i: int, j: int|
                0 <= i < r@.len() && 0 <= j < r@.len() && i != j implies #[trigger] r@[i]
                != #[trigger] r@[j] by {
                assert(r@[i] == fl[i].1 && r@[j] == fl[j].1);
                assert(pick(fl[i]) && pick(fl[j])) by {
                    Seq::lemma_filter_pred(ed, pick, i);
                    Seq::lemma_filter_pred(ed, pick, j);
                }
                assert(fl[i] != fl[j]);
                if fl[i].1 == fl[j].1 {
                    assert(fl[i].0 == av && fl[j].0 == av);
                    assert(fl[i] == fl[j]);
                }
            }
            // two or more destinations is exactly the non-determinism condition
            if r@.len() >= 2 {
                assert(r@.contains(r@[0]) && r@.contains(r@[1]));
                assert(self.nondet_at(s as int, *a)) by {
                    assert(r@[0] != r@[1]);
                    assert(self.has_edge(s as int, *a, r@[0] as int));
                    assert(self.has_edge(s as int, *a, r@[1] as int));
                }
            }
            if self.nondet_at(s as int, *a) {
                let (d1, d2) = choose|d1: int, d2: int|
                    d1 != d2 && #[trigger] self.has_edge(s as int, *a, d1)
                        && #[trigger] self.has_edge(s as int, *a, d2);
                let k1 = choose|k: int|
                    0 <= k < ed.len() && #[trigger] ed[k].0 == *a && ed[k].1 == d1;
                let k2 = choose|k: int|
                    0 <= k < ed.len() && #[trigger] ed[k].0 == *a && ed[k].1 == d2;
                assert(r@.contains(ed[k1].1) && r@.contains(ed[k2].1));
                let i1 = choose|i: int| 0 <= i < r@.len() && r@[i] == ed[k1].1;
                let i2 = choose|i: int| 0 <= i < r@.len() && r@[i] == ed[k2].1;
                assert(i1 != i2);
                assert(r@.len() >= 2);
            }
            if r@.len() == 0 {
                assert forall|d: int| !self.has_edge(s as int, *a, d) by {
                    if self.has_edge(s as int, *a, d) {
                        let k = choose|k: int|
                            0 <= k < ed.len() && #[trigger] ed[k].0 == *a && ed[k].1 == d;
                        assert(d == ed[k].1 as int);
                        assert(r@.contains(ed[k].1));
                    }
                }
            } else {
                assert(r@.contains(r@[0]));
                assert(self.has_edge(s as int, *a, r@[0] as int));
            }
        }
        r
    }

    /// For `index`, the symbols read non-deterministically: each symbol
    /// with more than one destination, together with all its destinations.
    /// A state without non-determinism yields an empty report.
    pub fn ndt_of(&self, index: usize) -> (r: Vec<(T, Vec<usize>)>)
        requires
            self.wf(),
        ensures
            forall|k: int|
                0 <= k < r@.len() ==> self.ndt_entry_ok(index as int, (#[trigger] r@[k]).0, r@[k].1@),
            forall|k1: int, k2: int|
                0 <= k1 < r@.len() && 0 <= k2 < r@.len() && k1 != k2 ==> (#[trigger] r@[k1]).0 != (
                #[trigger] r@[k2]).0,
            forall|x: T|
                #[trigger] self.nondet_at(index as int, x) ==> exists|k: int|
                    0 <= k < r@.len() && (#[trigger] r@[k]).0 == x,
            r@.len() == 0 <==> !exists|x: T| self.nondet_at(index as int, x),
    {
        let mut r: Vec<(T, Vec<usize>)> = Vec::new();
        let al = self.alphabet.len();
        let mut k: usize = 0;
        while k < al
            invariant
                self.wf(),
                k <= al,
                al == self.alpha_sq().len(),
                forall|k2: int|
                    0 <= k2 < r@.len() ==> self.ndt_entry_ok(
                        index as int,
                        (#[trigger] r@[k2]).0,
                        r@[k2].1@,
                    ),
                forall|k2: int|
                    0 <= k2 < r@.len() ==> exists|k0: int|
                        0 <= k0 < k && (#[trigger] r@[k2]).0 == self.alpha_sq()[k0],
                forall|k1: int, k2: int|
                    0 <= k1 < r@.len() && 0 <= k2 < r@.len() && k1 != k2 ==> (#[trigger] r@[k1]).0
                        != (#[trigger] r@[k2]).0,
                forall|k0: int|
                    0 <= k0 < k && self.nondet_at(index as int, #[trigger] self.alpha_sq()[k0])
                        ==> exists|k2: int| 0 <= k2 < r@.len() && (#[trigger] r@[k2]).0
                        == self.alpha_sq()[k0],
            decreases al - k,
        {
            let ds = self.dests_on(index, &self.alphabet[k]);
            if ds.len() > 1 {
                let ghost r0 = r@;
                let ghost dsg = ds@;
                r.push((self.alphabet[k].dup(), ds));
                proof {
                    let kk = k as int;
                    let last = r@.len() - 1;
                    assert(r@[last].0 == self.alpha_sq()[kk]);
                    assert(r@[last].1@ == dsg);
                    assert forall|k2: int| 0 <= k2 < r@.len() implies self.ndt_entry_ok(
                        index as int,
                        (#[trigger] r@[k2]).0,
                        r@[k2].1@,
                    ) by {
                        if k2 < r0.len() {
                            assert(r@[k2] == r0[k2]);
                            assert(self.ndt_entry_ok(index as int, r0[k2].0, r0[k2].1@));
                        } else {
                            assert(self.ndt_entry_ok(index as int, self.alpha_sq()[kk], dsg));
                        }
                    }
                    assert forall|k2: int|
                        0 <= k2 < r@.len() implies exists|k0: int|
                        0 <= k0 < kk + 1 && (#[trigger] r@[k2]).0 == self.alpha_sq()[k0] by {
                        if k2 < r0.len() {
                            let k0 = choose|k0: int|
                                0 <= k0 < kk && (#[trigger] r0[k2]).0 == self.alpha_sq()[k0];
                            assert(r@[k2] == r0[k2]);
                            assert(r@[k2].0 == self.alpha_sq()[k0]);
                        } else {
                            assert(r@[k2].0 == self.alpha_sq()[kk]);
                        }
                    }
                    assert forall|k1: int, k2: int|
                        0 <= k1 < r@.len() && 0 <= k2 < r@.len() && k1 != k2 implies (
                    #[trigger] r@[k1]).0 != (#[trigger] r@[k2]).0 by {
                        if k1 < r0.len() && k2 < r0.len() {
                            assert(r@[k1] == r0[k1] && r@[k2] == r0[k2]);
                            assert(r0[k1].0 != r0[k2].0);
                        } else {
                            let o = if k1 == last {
                                k2
                            } else {
                                k1
                            };
                            assert(r@[o] == r0[o]);
                            let k0 = choose|k0: int|
                                0 <= k0 < kk && (#[trigger] r0[o]).0 == self.alpha_sq()[k0];
                            assert(self.alpha_sq()[k0] != self.alpha_sq()[kk]);
                        }
                    }
                    assert forall|k0: int|
                        0 <= k0 < kk + 1 && self.nondet_at(
                            index as int,
                            #[trigger] self.alpha_sq()[k0],
                        ) implies exists|k2: int|
                        0 <= k2 < r@.len() && (#[trigger] r@[k2]).0 == self.alpha_sq()[k0] by {
                        if k0 == kk {
                            assert(r@[last].0 == self.alpha_sq()[k0]);
                        } else {
                            let k2 = choose|k2: int|
                                0 <= k2 < r0.len() && (#[trigger] r0[k2]).0 == self.alpha_sq()[k0];
                            assert(r@[k2] == r0[k2]);
                            assert(r@[k2].0 == self.alpha_sq()[k0]);
                        }
                    }
                }
            } else {
                proof {
                    assert(!self.nondet_at(index as int, self.alpha_sq()[k as int]));
                    assert forall|k0: int|
                        0 <= k0 < k + 1 && self.nondet_at(
                            index as int,
                            #[trigger] self.alpha_sq()[k0],
                        ) implies exists|k2: int|
                        0 <= k2 < r@.len() && (#[trigger] r@[k2]).0 == self.alpha_sq()[k0] by {
                        let k2 = choose|k2: int|
                            0 <= k2 < r@.len() && (#[trigger] r@[k2]).0 == self.alpha_sq()[k0];
                    }
                    assert forall|k2: int|
                        0 <= k2 < r@.len() implies exists|k0: int|
                        0 <= k0 < k + 1 && (#[trigger] r@[k2]).0 == self.alpha_sq()[k0] by {
                        let k0 = choose|k0: int|
                            0 <= k0 < k && (#[trigger] r@[k2]).0 == self.alpha_sq()[k0];
                    }
                }
            }
            k += 1;
        }
        proof {
            assert forall|x: T| #[trigger] self.nondet_at(index as int, x) implies exists|k: int|
                0 <= k < r@.len() && (#[trigger] r@[k]).0 == x by {
                let (d1, d2) = choose|d1: int, d2: int|
                    d1 != d2 && #[trigger] self.has_edge(index as int, x, d1)
                        && #[trigger] self.has_edge(index as int, x, d2);
                assert(self.alpha_has(x));
                let k0 = choose|k0: int|
                    0 <= k0 < self.alpha_sq().len() && self.alpha_sq()[k0] == x;
                assert(self.nondet_at(index as int, self.alpha_sq()[k0]));
            }
            if r@.len() > 0 {
                assert(self.ndt_entry_ok(index as int, r@[0].0, r@[0].1@));
                let ds = r@[0].1@;
                assert(ds.contains(ds[0]) && ds.contains(ds[1]));
                assert(self.has_edge(index as int, r@[0].0, ds[0] as int) && self.has_edge(
                    index as int,
                    r@[0].0,
                    ds[1] as int,
                ));
                assert(self.nondet_at(index as int, r@[0].0));
            }
        }
        r
    }

    /// Every non-deterministic state, each with its `ndt_of` report, or
    /// `None` when the automaton is already deterministic.
    #[verifier::rlimit(100)]
    #[verifier::spinoff_prover]
    pub fn non_determinist_states(&self) -> (r: Option<Vec<(usize, Vec<(T, Vec<usize>)>)>>)
        requires
            self.wf(),
        ensures
            r is None <==> self.deterministic(),
            (r matches Some(v) ==> v@.len() > 0 && (forall|m: int|
                0 <= m < v@.len() ==> {
                    &&& (forall|k: int|
                        0 <= k < v@[m].1@.len() ==> self.ndt_entry_ok(
                            (#[trigger] v@[m]).0 as int,
                            (#[trigger] v@[m].1@[k]).0,
                            v@[m].1@[k].1@,
                        ))
                    &&& self.has_nondet((#[trigger] v@[m]).0 as int)
                }) && (forall|s: int, x: T|
                #[trigger] self.nondet_at(s, x) ==> exists|m: int|
                    0 <= m < v@.len() && (#[trigger] v@[m]).0 == s) && (forall|m: int, x: T|
                0 <= m < v@.len() && #[trigger] self.nondet_at(v@[m].0 as int, x)
                    ==> exists|k: int|
                    0 <= k < v@[m].1@.len() && (#[trigger] v@[m].1@[k]).0 == x) && (forall|
                m1: int,
                m2: int,
            |
                0 <= m1 < m2 < v@.len() ==> (#[trigger] v@[m1]).0 < (#[trigger] v@[m2]).0)),
    {
        let mut v: Vec<(usize, Vec<(T, Vec<usize>)>)> = Vec::new();
        let n = self.states.len();
        for s in 0..n
            invariant
                self.wf(),
                n == self.n_slots(),
                forall|m: int|
                    0 <= m < v@.len() ==> {
                        &&& (forall|k: int|
                            0 <= k < v@[m].1@.len() ==> self.ndt_entry_ok(
                                (#[trigger] v@[m]).0 as int,
                                (#[trigger] v@[m].1@[k]).0,
                                v@[m].1@[k].1@,
                            ))
                        &&& self.has_nondet((#[trigger] v@[m]).0 as int)
                    },
                forall|s2: int, x: T|
                    0 <= s2 < s && #[trigger] self.nondet_at(s2, x) ==> exists|m: int|
                        0 <= m < v@.len() && (#[trigger] v@[m]).0 == s2,
                forall|m: int, x: T|
                    0 <= m < v@.len() && #[trigger] self.nondet_at(v@[m].0 as int, x)
                        ==> exists|k: int|
                        0 <= k < v@[m].1@.len() && (#[trigger] v@[m].1@[k]).0 == x,
                forall|m: int| 0 <= m < v@.len() ==> (#[trigger] v@[m]).0 < s,
                forall|m1: int, m2: int|
                    0 <= m1 < m2 < v@.len() ==> (#[trigger] v@[m1]).0 < (#[trigger] v@[m2]).0,
        {
            let ndt = self.ndt_of(s);
            if ndt.len() > 0 {
                let ghost v0 = v@;
                let ghost ndtg = ndt@;
                v.push((s, ndt));
                proof {
                    let last = v@.len() - 1;
                    assert(v@[last].0 == s && v@[last].1@ == ndtg);
                    assert(self.has_nondet(s as int));
                    assert forall|m: int|
                        0 <= m < v@.len() implies {
                        &&& (forall|k: int|
                            0 <= k < v@[m].1@.len() ==> self.ndt_entry_ok(
                                (#[trigger] v@[m]).0 as int,
                                (#[trigger] v@[m].1@[k]).0,
                                v@[m].1@[k].1@,
                            ))
                        &&& self.has_nondet((#[trigger] v@[m]).0 as int)
                    } by {
                        if m < v0.len() {
                            assert(v@[m] == v0[m]);
                            assert(self.has_nondet(v0[m].0 as int));
                        } else {
                            assert(v@[m].0 == s && v@[m].1@ == ndtg);
                            assert forall|k: int|
                                0 <= k < v@[m].1@.len() implies self.ndt_entry_ok(
                                (#[trigger] v@[m]).0 as int,
                                (#[trigger] v@[m].1@[k]).0,
                                v@[m].1@[k].1@,
                            ) by {
                                assert(self.ndt_entry_ok(s as int, ndtg[k].0, ndtg[k].1@));
                            }
                        }
                    }
                    assert forall|s2: int, x: T|
                        0 <= s2 < s + 1 && #[trigger] self.nondet_at(s2, x) implies exists|m: int|
                        0 <= m < v@.len() && (#[trigger] v@[m]).0 == s2 by {
                        if s2 == s as int {
                            assert(v@[last].0 == s2);
                        } else {
                            let m = choose|m: int|
                                0 <= m < v0.len() && (#[trigger] v0[m]).0 == s2;
                            assert(v@[m] == v0[m]);
                        }
                    }
                    assert forall|m: int, x: T|
                        0 <= m < v@.len() && #[trigger] self.nondet_at(v@[m].0 as int, x)
                        implies exists|k: int|
                        0 <= k < v@[m].1@.len() && (#[trigger] v@[m].1@[k]).0 == x by {
                        if m < v0.len() {
                            assert(v@[m] == v0[m]);
                            assert(self.nondet_at(v0[m].0 as int, x));
                            let k = choose|k: int|
                                0 <= k < v0[m].1@.len() && (#[trigger] v0[m].1@[k]).0 == x;
                            assert(v@[m].1@[k].0 == x);
                        } else {
                            assert(v@[m].1@ == ndtg);
                            assert(self.nondet_at(s as int, x));
                            let k = choose|k: int|
                                0 <= k < ndtg.len() && (#[trigger] ndtg[k]).0 == x;
                            assert(v@[m].1@[k].0 == x);
                        }
                    }
                    assert forall|m1: int, m2: int|
                        0 <= m1 < m2 < v@.len() implies (#[trigger] v@[m1]).0 < (
                    #[trigger] v@[m2]).0 by {
                        if m2 < v0.len() {
                            assert(v@[m1] == v0[m1] && v@[m2] == v0[m2]);
                        } else {
                            assert(v@[m1] == v0[m1]);
                            assert(v0[m1].0 < s);
                            assert(v@[m2].0 == s);
                        }
                    }
                }
            } else {
                proof {
                    assert forall|x: T| !(#[trigger] self.nondet_at(s as int, x)) by {}
                }
            }
        }
        proof {
            assert forall|s2: int, x: T| #[trigger] self.nondet_at(s2, x) implies exists|m: int|
                0 <= m < v@.len() && (#[trigger] v@[m]).0 == s2 by {
                let (d1, d2) = choose|d1: int, d2: int|
                    d1 != d2 && #[trigger] self.has_edge(s2, x, d1) && #[trigger] self.has_edge(
                        s2,
                        x,
                        d2,
                    );
                assert(self.live(s2));
                assert(0 <= s2 < n);
            }
        }
        if v.len() > 0 {
            proof {
                let m0 = v@[0];
                let x = choose|x: T| self.nondet_at(m0.0 as int, x);
                assert(!self.deterministic());
            }
            Some(v)
        } else {
            proof {
                assert forall|s2: int, x: T| !(#[trigger] self.nondet_at(s2, x)) by {
                    if self.nondet_at(s2, x) {
                        let m = choose|m: int| 0 <= m < v@.len() && (#[trigger] v@[m]).0 == s2;
                    }
                }
            }
            None
        }
    }

    /// Remove state `index`: its entry, its outgoing edges, and every
    /// incoming edge from any other state; symbols left without an edge
    /// leave the alphabet. Returns the accept flag and the outgoing edges
    /// that did not loop back to `index`, or `None` for an id that does
    /// not resolve.
    pub fn remove_state(&mut self, index: usize) -> (r: Option<(bool, Option<Vec<Transition<T>>>)>)
        requires
            old(self).wf(),
        ensures
            final(self).wf(),
            final(self).n_slots() == old(self).n_slots(),
            final(self).initial_id() == old(self).initial_id(),
            final(self).current_id() == old(self).current_id(),
            r is Some <==> old(self).live(index as int),
            !old(self).live(index as int) ==> final(self).state_sq() == old(self).state_sq()
                && final(self).trans_sq() == old(self).trans_sq() && final(self).alpha_sq() == old(
                self,
            ).alpha_sq(),
            old(self).live(index as int) ==> final(self).state_sq() == old(self).state_sq().update(
                index as int,
                None,
            ),
            forall|s: int, x: T, d: int|
                #![trigger final(self).has_edge(s, x, d)]
                #![trigger old(self).has_edge(s, x, d)]
                final(self).has_edge(s, x, d) <==> (old(self).has_edge(s, x, d) && !(old(
                    self,
                ).live(index as int) && (s == index as int || d == index as int))),
            forall|x: T| #[trigger] final(self).alpha_has(x) <==> final(self).symbol_used(x),
            (r matches Some(p) ==> p.0 == old(self).accepting(index as int) && (p.1 is Some <==> old(
                self,
            ).edges_at(index as int).len() > 0) && (p.1 matches Some(v) ==> v@ == old(
                self,
            ).edges_at(index as int).filter((|t: Transition<T>| t.1 != index)))),
    {
        let alive = index < self.states.len() && self.states[index].is_some();
        if !alive {
            proof {
                (*old(self)).lemma_same_trans(*self);
                assert forall|x: T| #[trigger] self.alpha_has(x) implies self.symbol_used(x) by {
                    let k = choose|k: int| 0 <= k < self.alpha_sq().len() && self.alpha_sq()[k] == x;
                    assert(self.symbol_used(self.alpha_sq()[k]));
                }
                assert forall|s: int, x: T, d: int| #[trigger] self.has_edge(s, x, d) implies self
                    .alpha_has(x) by {}
            }
            return None;
        }
        let acc = self.state_accept(index);
        let had_out = self.edge_count(index) > 0;
        let ghost pre = *self;
        let ghost dropdst = (|t: Transition<T>| t.1 != index);
        // Cascade: delete every edge leading into `index`.
        let n = self.transitions.len();
        for s in 0..n
            invariant
                n == self.trans_sq().len(),
                n == pre.trans_sq().len(),
                self.state_sq() == pre.state_sq(),
                self.alpha_sq() == pre.alpha_sq(),
                self.initial_id() == pre.initial_id(),
                self.current_id() == pre.current_id(),
                dropdst == (|t: Transition<T>| t.1 != index),
                forall|t: int|
                    0 <= t < s ==> #[trigger] self.edges_at(t) == pre.edges_at(t).filter(dropdst),
                forall|t: int| s <= t ==> #[trigger] self.edges_at(t) == pre.edges_at(t),
        {
            let ghost before = *self;
            let row = Self::edges_not_into(&self.transitions[s], index);
            let ghost rowg = row@;
            self.transitions.set(s, row);
            proof {
                assert(rowg == before.edges_at(s as int).filter(dropdst));
                assert(before.edges_at(s as int) == pre.edges_at(s as int));
                assert(self.trans_sq() =~= before.trans_sq().update(s as int, rowg));
                assert(self.edges_at(s as int) == rowg);
                assert(self.edges_at(s as int) == pre.edges_at(s as int).filter(dropdst));
                assert forall|t: int|
                    s + 1 <= t implies #[trigger] self.edges_at(t) == pre.edges_at(t) by {
                    assert(self.edges_at(t) == before.edges_at(t));
                }
                assert forall|t: int|
                    0 <= t < s + 1 implies #[trigger] self.edges_at(t) == pre.edges_at(t).filter(
                    dropdst,
                ) by {
                    if t < s as int {
                        assert(self.edges_at(t) == before.edges_at(t));
                    }
                }
            }
        }
        // Take the outgoing edges and clear the slot.
        let ghost at_take = *self;
        let out = Self::clone_edges(&self.transitions[index]);
        proof {
            assert(out@ == at_take.edges_at(index as int));
            assert(out@ == pre.edges_at(index as int).filter(dropdst));
        }
        let ghost before_clear = *self;
        self.transitions.set(index, Vec::new());
        proof {
            assert(self.trans_sq() =~= before_clear.trans_sq().update(
                index as int,
                Seq::<Transition<T>>::empty(),
            ));
        }
        self.states.set(index, None);
        proof {
            assert(self.edges_at(index as int) =~= Seq::<Transition<T>>::empty());
            assert forall|t: int|
                t != index as int implies #[trigger] self.edges_at(t) == pre.edges_at(t).filter(
                dropdst,
            ) by {
                if 0 <= t < self.trans_sq().len() {
                    assert(self.edges_at(t) == before_clear.edges_at(t));
                } else {
                    assert(pre.edges_at(t) =~= Seq::<Transition<T>>::empty());
                    assert(pre.edges_at(t).filter(dropdst) =~= Seq::<Transition<T>>::empty());
                }
            }
        }
        let ghost mid = *self;
        // Keep only the symbols that still label some edge.
        let mut new_alpha: Vec<T> = Vec::new();
        let ghost used = (|x: T| mid.symbol_used(x));
        let al = self.alphabet.len();
        for k in 0..al
            invariant
                *self == mid,
                al == self.alpha_sq().len(),
                used == (|x: T| mid.symbol_used(x)),
                new_alpha@ == self.alpha_sq().subrange(0, k as int).filter(used),
        {
            proof {
                lemma_filter_push(self.alpha_sq().subrange(0, k as int), self.alpha_sq()[k as int], used);
                assert(self.alpha_sq().subrange(0, k + 1) =~= self.alpha_sq().subrange(
                    0,
                    k as int,
                ).push(self.alpha_sq()[k as int]));
            }
            if self.symbol_in_use(&self.alphabet[k]) {
                new_alpha.push(self.alphabet[k].dup());
                proof {
                    assert(new_alpha@ =~= self.alpha_sq().subrange(0, k + 1).filter(used));
                }
            } else {
                proof {
                    assert(new_alpha@ =~= self.alpha_sq().subrange(0, k + 1).filter(used));
                }
            }
        }
        self.alphabet = new_alpha;
        proof {
            let post = *self;
            let idx = index as int;
            assert(mid.alpha_sq().subrange(0, al as int) =~= mid.alpha_sq());
            assert(post.alpha_sq() == mid.alpha_sq().filter(used));
            mid.lemma_same_trans(post);
            // How the edges of the result relate to the edges before.
            assert forall|s: int, x: T, d: int|
                #![trigger post.has_edge(s, x, d)]
                #![trigger pre.has_edge(s, x, d)]
                post.has_edge(s, x, d) <==> (pre.has_edge(s, x, d) && s != idx && d != idx) by {
                if s != idx {
                    lemma_filter_elems(pre.edges_at(s), dropdst);
                    assert(post.edges_at(s) == pre.edges_at(s).filter(dropdst));
                    if post.has_edge(s, x, d) {
                        let i = choose|i: int|
                            0 <= i < post.edges_at(s).len() && #[trigger] post.edges_at(s)[i].0
                                == x && post.edges_at(s)[i].1 == d;
                        let e = post.edges_at(s)[i];
                        assert(dropdst(e)) by {
                            Seq::lemma_filter_pred(pre.edges_at(s), dropdst, i);
                        }
                        assert(pre.edges_at(s).contains(e));
                        let k = choose|k: int|
                            0 <= k < pre.edges_at(s).len() && pre.edges_at(s)[k] == e;
                        assert(pre.has_edge(s, x, d));
                        assert(d != idx);
                    }
                    if pre.has_edge(s, x, d) && d != idx {
                        let i = choose|i: int|
                            0 <= i < pre.edges_at(s).len() && #[trigger] pre.edges_at(s)[i].0 == x
                                && pre.edges_at(s)[i].1 == d;
                        let e = pre.edges_at(s)[i];
                        assert(dropdst(e));
                        Seq::lemma_filter_contains(pre.edges_at(s), dropdst, i);
                        assert(pre.edges_at(s).filter(dropdst).contains(e));
                        let k = choose|k: int|
                            0 <= k < post.edges_at(s).len() && post.edges_at(s)[k] == e;
                        assert(post.has_edge(s, x, d));
                    }
                } else {
                    assert(post.edges_at(idx).len() == 0);
                    assert(!post.has_edge(s, x, d));
                }
            }
            // Well-formedness of the result.
            assert forall|x: T| #[trigger] post.alpha_has(x) <==> post.symbol_used(x) by {
                lemma_filter_elems(mid.alpha_sq(), used);
                if post.alpha_has(x) {
                    let i = choose|i: int|
                        0 <= i < post.alpha_sq().len() && post.alpha_sq()[i] == x;
                    assert(used(post.alpha_sq()[i])) by {
                        Seq::lemma_filter_pred(mid.alpha_sq(), used, i);
                    }
                    assert(mid.symbol_used(x));
                    assert(post.symbol_used(x));
                }
                if post.symbol_used(x) {
                    let (s, d) = choose|s: int, d: int| post.has_edge(s, x, d);
                    assert(pre.has_edge(s, x, d));
                    assert(pre.alpha_has(x));
                    let i = choose|i: int|
                        0 <= i < pre.alpha_sq().len() && pre.alpha_sq()[i] == x;
                    assert(mid.alpha_sq()[i] == x);
                    assert(used(mid.alpha_sq()[i]));
                    Seq::lemma_filter_contains(mid.alpha_sq(), used, i);
                    assert(post.alpha_sq().contains(x));
                }
            }
            assert forall|s: int, x: T, d: int| #[trigger] post.has_edge(s, x, d) implies post.live(
                s,
            ) && post.live(d) && post.alpha_has(x) by {
                assert(pre.has_edge(s, x, d) && s != idx && d != idx);
                assert(pre.live(s) && pre.live(d));
                assert(post.symbol_used(x));
            }
            assert forall|s: int, i: int, j: int|
                0 <= s < post.n_slots() && 0 <= i < post.edges_at(s).len() && 0 <= j
                    < post.edges_at(s).len() && i != j implies #[trigger] post.edges_at(s)[i]
                != #[trigger] post.edges_at(s)[j] by {
                if s != idx {
                    assert(post.edges_at(s) == pre.edges_at(s).filter(dropdst));
                    lemma_filter_keeps_distinct(pre.edges_at(s), dropdst);
                }
            }
            assert forall|i: int, j: int|
                0 <= i < post.alpha_sq().len() && 0 <= j < post.alpha_sq().len() && i != j
                implies #[trigger] post.alpha_sq()[i] != #[trigger] post.alpha_sq()[j] by {
                lemma_filter_keeps_distinct(mid.alpha_sq(), used);
            }
            assert forall|k: int| 0 <= k < post.alpha_sq().len() implies post.symbol_used(
                #[trigger] post.alpha_sq()[k],
            ) by {
                assert(post.alpha_has(post.alpha_sq()[k]));
            }
            assert(post.wf());
        }
        if had_out {
            Some((acc, Some(out)))
        } else {
            Some((acc, None))
        }
    }

    /// Replace every edge from `s` on symbol `c` by the single edge
    /// `(c, ns)`; edges on other symbols stay.
    pub(crate) fn redirect_symbol(&mut self, s: usize, c: &T, ns: usize)
        requires
            old(self).wf(),
            old(self).live(s as int),
            old(self).live(ns as int),
            exists|d: int| old(self).has_edge(s as int, *c, d),
        ensures
            final(self).wf(),
            final(self).state_sq() == old(self).state_sq(),
            final(self).alpha_sq() == old(self).alpha_sq(),
            final(self).initial_id() == old(self).initial_id(),
            final(self).current_id() == old(self).current_id(),
            forall|s2: int|
                s2 != s as int ==> #[trigger] final(self).edges_at(s2) == old(self).edges_at(s2),
            forall|s2: int, x: T, d: int|
                #![trigger final(self).has_edge(s2, x, d)]
                #![trigger old(self).has_edge(s2, x, d)]
                final(self).has_edge(s2, x, d) <==> (if s2 == s as int {
                    (x != *c && old(self).has_edge(s2, x, d)) || (x == *c && d == ns as int)
                } else {
                    old(self).has_edge(s2, x, d)
                }),
    {
        let ghost pre = *self;
        let ghost cv = *c;
        let ghost keep = (|t: Transition<T>| t.0 != cv);
        let mut row: Vec<Transition<T>> = Vec::new();
        let old_row = &self.transitions[s];
        let m = old_row.len();
        for j in 0..m
            invariant
                m == old_row@.len(),
                cv == *c,
                keep == (|t: Transition<T>| t.0 != cv),
                row@ == old_row@.subrange(0, j as int).filter(keep),
        {
            proof {
                lemma_filter_push(old_row@.subrange(0, j as int), old_row@[j as int], keep);
                assert(old_row@.subrange(0, j + 1) =~= old_row@.subrange(0, j as int).push(
                    old_row@[j as int],
                ));
            }
            if !old_row[j].0.sym_eq(c) {
                row.push(Transition(old_row[j].0.dup(), old_row[j].1));
                proof {
                    assert(Transition(old_row@[j as int].0, old_row@[j as int].1) == old_row@[j as int]);
                    assert(row@ =~= old_row@.subrange(0, j + 1).filter(keep));
                }
            } else {
                proof {
                    assert(row@ =~= old_row@.subrange(0, j + 1).filter(keep));
                }
            }
        }
        proof {
            assert(old_row@.subrange(0, m as int) =~= old_row@);
            assert(old_row@ == pre.edges_at(s as int));
        }
        row.push(Transition(c.dup(), ns));
        let ghost rowg = row@;
        self.transitions.set(s, row);
        proof {
            let st = s as int;
            let ed = pre.edges_at(st);
            let fl = ed.filter(keep);
            assert(rowg == fl.push(Transition(cv, ns)));
            assert(self.trans_sq() =~= pre.trans_sq().update(st, rowg));
            assert(self.edges_at(st) == rowg);
            assert forall|s2: int|
                s2 != st implies #[trigger] self.edges_at(s2) == pre.edges_at(s2) by {}
            lemma_filter_elems(ed, keep);
            lemma_filter_keeps_distinct(ed, keep);
            // the new edge characterization
            assert forall|s2: int, x: T, d: int|
                #![trigger self.has_edge(s2, x, d)]
                #![trigger pre.has_edge(s2, x, d)]
                self.has_edge(s2, x, d) <==> (if s2 == st {
                    (x != cv && pre.has_edge(s2, x, d)) || (x == cv && d == ns as int)
                } else {
                    pre.has_edge(s2, x, d)
                }) by {
                if s2 == st {
                    if self.has_edge(s2, x, d) {
                        let i = choose|i: int|
                            0 <= i < self.edges_at(s2).len() && #[trigger] self.edges_at(s2)[i].0
                                == x && self.edges_at(s2)[i].1 == d;
                        if i < fl.len() {
                            let e = fl[i];
                            assert(keep(e)) by {
                                Seq::lemma_filter_pred(ed, keep, i);
                            }
                            assert(ed.contains(e));
                            let k = choose|k: int| 0 <= k < ed.len() && ed[k] == e;
                            assert(pre.has_edge(s2, x, d));
                            assert(x != cv);
                        } else {
                            assert(self.edges_at(s2)[i] == Transition(cv, ns));
                        }
                    }
                    if x != cv && pre.has_edge(s2, x, d) {
                        let i = choose|i: int|
                            0 <= i < ed.len() && #[trigger] ed[i].0 == x && ed[i].1 == d;
                        assert(keep(ed[i]));
                        Seq::lemma_filter_contains(ed, keep, i);
                        assert(fl.contains(ed[i]));
                        let k = choose|k: int| 0 <= k < fl.len() && fl[k] == ed[i];
                        assert(self.edges_at(s2)[k] == ed[i]);
                        assert(self.has_edge(s2, x, d));
                    }
                    if x == cv && d == ns as int {
                        assert(self.edges_at(s2) == rowg);
                        assert(rowg[rowg.len() - 1] == Transition(cv, ns));
                        assert(self.edges_at(s2)[rowg.len() - 1].0 == x
                            && self.edges_at(s2)[rowg.len() - 1].1 == d);
                        assert(self.has_edge(s2, x, d));
                    }
                } else {
                    assert(self.edges_at(s2) == pre.edges_at(s2));
                    if self.has_edge(s2, x, d) {
                        let i = choose|i: int|
                            0 <= i < self.edges_at(s2).len() && #[trigger] self.edges_at(s2)[i].0
                                == x && self.edges_at(s2)[i].1 == d;
                        assert(pre.edges_at(s2)[i].0 == x && pre.edges_at(s2)[i].1 == d);
                        assert(pre.has_edge(s2, x, d));
                    }
                    if pre.has_edge(s2, x, d) {
                        let i = choose|i: int|
                            0 <= i < pre.edges_at(s2).len() && #[trigger] pre.edges_at(s2)[i].0
                                == x && pre.edges_at(s2)[i].1 == d;
                        assert(self.edges_at(s2)[i].0 == x && self.edges_at(s2)[i].1 == d);
                        assert(self.has_edge(s2, x, d));
                    }
                }
            }
            // well-formedness
            assert(pre.alpha_has(cv)) by {
                let d0 = choose|d: int| pre.has_edge(st, cv, d);
            }
            assert forall|s2: int, x: T, d: int| #[trigger] self.has_edge(s2, x, d) implies self
                .live(s2) && self.live(d) && self.alpha_has(x) by {
                if s2 == st && x == cv {
                    assert(self.live(ns as int));
                } else {
                    assert(pre.has_edge(s2, x, d));
                }
            }
            assert forall|s2: int, i: int, j: int|
                0 <= s2 < self.n_slots() && 0 <= i < self.edges_at(s2).len() && 0 <= j
                    < self.edges_at(s2).len() && i != j implies #[trigger] self.edges_at(s2)[i]
                != #[trigger] self.edges_at(s2)[j] by {
                if s2 == st {
                    if i < fl.len() && j < fl.len() {
                        lemma_filter_keeps_distinct(ed, keep);
                    } else {
                        let o = if i < fl.len() {
                            i
                        } else {
                            j
                        };
                        assert(keep(fl[o])) by {
                            Seq::lemma_filter_pred(ed, keep, o);
                        }
                        assert(self.edges_at(s2)[o].0 != cv);
                    }
                } else {
                    assert(self.edges_at(s2) == pre.edges_at(s2));
                    assert(pre.edges_at(s2)[i] != pre.edges_at(s2)[j]);
                }
            }
            assert forall|k: int| 0 <= k < self.alpha_sq().len() implies self.symbol_used(
                #[trigger] self.alpha_sq()[k],
            ) by {
                let x = self.alpha_sq()[k];
                assert(pre.symbol_used(x));
                let (s3, d3) = choose|s3: int, d3: int| pre.has_edge(s3, x, d3);
                if s3 == st && x == cv {
                    assert(self.has_edge(st, cv, ns as int));
                } else if s3 == st {
                    assert(self.has_edge(s3, x, d3));
                } else {
                    assert(self.has_edge(s3, x, d3));
                }
            }
        }
    }

    /// Create a transition between states `origin` and `dest`.
    pub fn create_transition_between(&mut self, origin: usize, dest: usize, by: T)
        requires
            old(self).wf(),
            old(self).live(origin as int),
            old(self).live(dest as int),
        ensures
            final(self).wf(),
            final(self).state_sq() == old(self).state_sq(),
            final(self).initial_id() == old(self).initial_id(),
            final(self).current_id() == old(self).current_id(),
            forall|s: int|
                s != origin as int ==> #[trigger] final(self).edges_at(s) == old(self).edges_at(s),
            forall|s: int, x: T, d: int|
                #![trigger final(self).has_edge(s, x, d)]
                #![trigger old(self).has_edge(s, x, d)]
                final(self).has_edge(s, x, d) <==> (old(self).has_edge(s, x, d) || (s
                    == origin as int && x == by && d == dest as int)),
            forall|x: T|
                #![trigger final(self).alpha_has(x)]
                #![trigger old(self).alpha_has(x)]
                final(self).alpha_has(x) <==> (old(self).alpha_has(x) || x == by),
            final(self).alpha_sq() == (if old(self).alpha_has(by) {
                old(self).alpha_sq()
            } else {
                old(self).alpha_sq().push(by)
            }),
    {
        let trans = Transition::new(by, dest);
        self.add_transition_to(origin, trans);
    }

    /// Create a transition from the current state to `dest`.
    pub fn create_transition(&mut self, by: T, dest: usize)
        requires
            old(self).wf(),
            old(self).live(old(self).current_id()),
            old(self).live(dest as int),
        ensures
            final(self).wf(),
            final(self).state_sq() == old(self).state_sq(),
            final(self).initial_id() == old(self).initial_id(),
            final(self).current_id() == old(self).current_id(),
            forall|s: int, x: T, d: int|
                #![trigger final(self).has_edge(s, x, d)]
                #![trigger old(self).has_edge(s, x, d)]
                final(self).has_edge(s, x, d) <==> (old(self).has_edge(s, x, d) || (s == old(
                    self,
                ).current_id() && x == by && d == dest as int)),
            forall|x: T|
                #![trigger final(self).alpha_has(x)]
                #![trigger old(self).alpha_has(x)]
                final(self).alpha_has(x) <==> (old(self).alpha_has(x) || x == by),
    {
        let current = self.current;
        self.create_transition_between(current, dest, by);
    }

    /// Create a transition from the current state to `dest`, then move the
    /// cursor to `dest`.
    pub fn create_transition_and_walk(&mut self, by: T, dest: usize)
        requires
            old(self).wf(),
            old(self).live(old(self).current_id()),
            old(self).live(dest as int),
        ensures
            final(self).wf(),
            final(self).state_sq() == old(self).state_sq(),
            final(self).initial_id() == old(self).initial_id(),
            final(self).current_id() == dest as int,
            forall|s: int, x: T, d: int|
                #![trigger final(self).has_edge(s, x, d)]
                #![trigger old(self).has_edge(s, x, d)]
                final(self).has_edge(s, x, d) <==> (old(self).has_edge(s, x, d) || (s == old(
                    self,
                ).current_id() && x == by && d == dest as int)),
            forall|x: T|
                #![trigger final(self).alpha_has(x)]
                #![trigger old(self).alpha_has(x)]
                final(self).alpha_has(x) <==> (old(self).alpha_has(x) || x == by),
    {
        let current = self.current;
        self.create_transition_between(current, dest, by);
        let ghost mid = *self;
        self.current = dest;
        proof {
            mid.lemma_same_trans(*self);
            assert(self.alpha_sq() == mid.alpha_sq());
            assert(self.state_sq() == mid.state_sq());
            assert(self.trans_sq() == mid.trans_sq());
        }
    }
}

} // verus!
