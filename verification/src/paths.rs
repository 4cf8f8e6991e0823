//! Runs, reachability, productivity and the accepted language of an
//! automaton, with the lemmas the pruning passes rest on.

use vstd::prelude::*;

verus! {

use crate::dfa::Dfa;
use crate::dfa::Transitable;

impl<T: Transitable> Dfa<T> {
    /// The word `w` is accepted starting from state `s`: some run over
    /// `w` ends in an accepting state.
    pub open spec fn accepts_from(self, s: int, w: Seq<T>) -> bool
        decreases w.len(),
    {
        if w.len() == 0 {
            self.accepting(s)
        } else {
            exists|m: int| #[trigger] self.has_edge(s, w[0], m) && self.accepts_from(m, w.skip(1))
        }
    }

    /// The word `w` is in the automaton's language.
    pub open spec fn accepts(self, w: Seq<T>) -> bool {
        self.accepts_from(self.initial_id(), w)
    }

    /// Some run over `w` leads from `s` to `t`.
    pub open spec fn runs_to(self, s: int, w: Seq<T>, t: int) -> bool
        decreases w.len(),
    {
        if w.len() == 0 {
            s == t
        } else {
            exists|m: int| #[trigger] self.has_edge(s, w[0], m) && self.runs_to(m, w.skip(1), t)
        }
    }

    /// Some run from the initial state ends in `t`.
    pub open spec fn reachable(self, t: int) -> bool {
        exists|w: Seq<T>| self.runs_to(self.initial_id(), w, t)
    }

    /// Some run from `s` ends in an accepting state.
    pub open spec fn productive(self, s: int) -> bool {
        exists|w: Seq<T>, t: int| #[trigger] self.runs_to(s, w, t) && self.accepting(t)
    }

    /// Prepending an edge to a run.
    pub proof fn lemma_runs_to_step(self, s: int, a: T, m: int, w: Seq<T>, t: int)
        requires
            self.has_edge(s, a, m),
            self.runs_to(m, w, t),
        ensures
            self.runs_to(s, seq![a] + w, t),
    {
        let v = seq![a] + w;
        assert(v[0] == a);
        assert(v.skip(1) =~= w);
        assert(self.has_edge(s, v[0], m) && self.runs_to(m, v.skip(1), t));
    }

    /// Appending an edge to a run.
    pub proof fn lemma_runs_to_push(self, s: int, w: Seq<T>, t: int, a: T, u: int)
        requires
            self.runs_to(s, w, t),
            self.has_edge(t, a, u),
        ensures
            self.runs_to(s, w.push(a), u),
        decreases w.len(),
    {
        let v = w.push(a);
        if w.len() == 0 {
            assert(s == t);
            assert(v[0] == a);
            assert(v.skip(1) =~= Seq::<T>::empty());
            assert(self.runs_to(u, v.skip(1), u));
            assert(self.has_edge(s, v[0], u) && self.runs_to(u, v.skip(1), u));
        } else {
            let m = choose|m: int|
                #[trigger] self.has_edge(s, w[0], m) && self.runs_to(m, w.skip(1), t);
            self.lemma_runs_to_push(m, w.skip(1), t, a, u);
            assert(v[0] == w[0]);
            assert(v.skip(1) =~= w.skip(1).push(a));
            assert(self.has_edge(s, v[0], m) && self.runs_to(m, v.skip(1), u));
        }
    }

    /// A state an edge leads to from a reachable state is reachable.
    pub proof fn lemma_reachable_step(self, s: int, a: T, m: int)
        requires
            self.reachable(s),
            self.has_edge(s, a, m),
        ensures
            self.reachable(m),
    {
        let w = choose|w: Seq<T>| self.runs_to(self.initial_id(), w, s);
        self.lemma_runs_to_push(self.initial_id(), w, s, a, m);
    }

    /// The initial state is reachable, by the empty run.
    pub proof fn lemma_reachable_initial(self)
        ensures
            self.reachable(self.initial_id()),
    {
        let w = Seq::<T>::empty();
        assert(self.runs_to(self.initial_id(), w, self.initial_id()));
    }

    /// An accepting state is productive, by the empty run.
    pub proof fn lemma_accepting_productive(self, s: int)
        requires
            self.accepting(s),
        ensures
            self.productive(s),
    {
        let w = Seq::<T>::empty();
        assert(self.runs_to(s, w, s) && self.accepting(s));
    }

    /// A state with an edge into a productive state is productive.
    pub proof fn lemma_productive_step(self, s: int, a: T, m: int)
        requires
            self.has_edge(s, a, m),
            self.productive(m),
        ensures
            self.productive(s),
    {
        let (w, t) = choose|w: Seq<T>, t: int|
            #[trigger] self.runs_to(m, w, t) && self.accepting(t);
        self.lemma_runs_to_step(s, a, m, w, t);
        assert(self.runs_to(s, seq![a] + w, t) && self.accepting(t));
    }

    /// Acceptance from `s` is the same as a run from `s` into an
    /// accepting state.
    pub proof fn lemma_accepts_iff_run(self, s: int, w: Seq<T>)
        ensures
            self.accepts_from(s, w) <==> exists|t: int|
                #[trigger] self.runs_to(s, w, t) && self.accepting(t),
        decreases w.len(),
    {
        if w.len() == 0 {
            if self.accepts_from(s, w) {
                assert(self.runs_to(s, w, s) && self.accepting(s));
            }
            if exists|t: int| #[trigger] self.runs_to(s, w, t) && self.accepting(t) {
                let t = choose|t: int| #[trigger] self.runs_to(s, w, t) && self.accepting(t);
                assert(t == s);
            }
        } else {
            if self.accepts_from(s, w) {
                let m = choose|m: int|
                    #[trigger] self.has_edge(s, w[0], m) && self.accepts_from(m, w.skip(1));
                self.lemma_accepts_iff_run(m, w.skip(1));
                let t = choose|t: int|
                    #[trigger] self.runs_to(m, w.skip(1), t) && self.accepting(t);
                assert(self.has_edge(s, w[0], m) && self.runs_to(m, w.skip(1), t));
                assert(self.runs_to(s, w, t) && self.accepting(t));
            }
            if exists|t: int| #[trigger] self.runs_to(s, w, t) && self.accepting(t) {
                let t = choose|t: int| #[trigger] self.runs_to(s, w, t) && self.accepting(t);
                let m = choose|m: int|
                    #[trigger] self.has_edge(s, w[0], m) && self.runs_to(m, w.skip(1), t);
                self.lemma_accepts_iff_run(m, w.skip(1));
                assert(self.runs_to(m, w.skip(1), t) && self.accepting(t));
                assert(self.accepts_from(m, w.skip(1)));
                assert(self.has_edge(s, w[0], m) && self.accepts_from(m, w.skip(1)));
            }
        }
    }

    /// A run survives in any automaton with at least the same edges.
    pub proof fn lemma_mono_runs(self, other: Self, s: int, w: Seq<T>, t: int)
        requires
            forall|s2: int, x: T, d: int|
                #[trigger] self.has_edge(s2, x, d) ==> other.has_edge(s2, x, d),
            self.runs_to(s, w, t),
        ensures
            other.runs_to(s, w, t),
        decreases w.len(),
    {
        if w.len() == 0 {
        } else {
            let m = choose|m: int|
                #[trigger] self.has_edge(s, w[0], m) && self.runs_to(m, w.skip(1), t);
            self.lemma_mono_runs(other, m, w.skip(1), t);
            assert(other.has_edge(s, w[0], m) && other.runs_to(m, w.skip(1), t));
        }
    }

    /// An accepted word stays accepted in any automaton with at least
    /// the same edges and accepting states.
    pub proof fn lemma_mono_accepts(self, other: Self, s: int, w: Seq<T>)
        requires
            forall|s2: int, x: T, d: int|
                #[trigger] self.has_edge(s2, x, d) ==> other.has_edge(s2, x, d),
            forall|s2: int| #[trigger] self.accepting(s2) ==> other.accepting(s2),
            self.accepts_from(s, w),
        ensures
            other.accepts_from(s, w),
        decreases w.len(),
    {
        if w.len() == 0 {
        } else {
            let m = choose|m: int|
                #[trigger] self.has_edge(s, w[0], m) && self.accepts_from(m, w.skip(1));
            self.lemma_mono_accepts(other, m, w.skip(1));
            assert(other.has_edge(s, w[0], m) && other.accepts_from(m, w.skip(1)));
        }
    }

    /// A run into an accepting state accepts its word.
    pub proof fn lemma_run_to_accepting(self, s: int, w: Seq<T>, t: int)
        requires
            self.runs_to(s, w, t),
            self.accepting(t),
        ensures
            self.accepts_from(s, w),
    {
        self.lemma_accepts_iff_run(s, w);
    }

    /// A non-empty run decomposes into a run to some predecessor and a
    /// final edge.
    pub proof fn lemma_last_step(self, s: int, w: Seq<T>, t: int)
        requires
            self.runs_to(s, w, t),
            w.len() > 0,
        ensures
            exists|m: int|
                #[trigger] self.runs_to(s, w.drop_last(), m) && self.has_edge(m, w.last(), t),
        decreases w.len(),
    {
        let m = choose|m: int|
            #[trigger] self.has_edge(s, w[0], m) && self.runs_to(m, w.skip(1), t);
        if w.len() == 1 {
            assert(w.skip(1) =~= Seq::<T>::empty());
            assert(m == t);
            assert(w.drop_last() =~= Seq::<T>::empty());
            assert(w.last() == w[0]);
            assert(self.runs_to(s, w.drop_last(), s) && self.has_edge(s, w.last(), t));
        } else {
            self.lemma_last_step(m, w.skip(1), t);
            let m2 = choose|m2: int|
                #[trigger] self.runs_to(m, w.skip(1).drop_last(), m2) && self.has_edge(
                    m2,
                    w.skip(1).last(),
                    t,
                );
            assert(w.drop_last()[0] == w[0]);
            assert(w.drop_last().skip(1) =~= w.skip(1).drop_last());
            assert(self.has_edge(s, w.drop_last()[0], m) && self.runs_to(
                m,
                w.drop_last().skip(1),
                m2,
            ));
            assert(self.runs_to(s, w.drop_last(), m2));
            assert(w.skip(1).last() == w.last());
            assert(self.runs_to(s, w.drop_last(), m2) && self.has_edge(m2, w.last(), t));
        }
    }

    /// Adding one edge into an edgeless state leaves every run that ends
    /// elsewhere untouched.
    pub proof fn lemma_extend_run_unchanged(
        self,
        other: Self,
        u0: int,
        c0: T,
        v0: int,
        s: int,
        w: Seq<T>,
        t: int,
    )
        requires
            forall|s2: int, x: T, d: int|
                #![trigger self.has_edge(s2, x, d)]
                #![trigger other.has_edge(s2, x, d)]
                other.has_edge(s2, x, d) <==> (self.has_edge(s2, x, d) || (s2 == u0 && x == c0
                    && d == v0)),
            forall|x: T, d: int| !(#[trigger] self.has_edge(v0, x, d)),
            forall|x: T, d: int| !(#[trigger] other.has_edge(v0, x, d)),
            t != v0,
        ensures
            other.runs_to(s, w, t) == self.runs_to(s, w, t),
        decreases w.len(),
    {
        if w.len() == 0 {
        } else {
            if other.runs_to(s, w, t) {
                let m = choose|m: int|
                    #[trigger] other.has_edge(s, w[0], m) && other.runs_to(m, w.skip(1), t);
                if m == v0 {
                    if w.skip(1).len() == 0 {
                        assert(t == v0);
                    } else {
                        let m2 = choose|m2: int|
                            #[trigger] other.has_edge(v0, w.skip(1)[0], m2) && other.runs_to(
                                m2,
                                w.skip(1).skip(1),
                                t,
                            );
                    }
                    assert(false);
                }
                assert(self.has_edge(s, w[0], m));
                self.lemma_extend_run_unchanged(other, u0, c0, v0, m, w.skip(1), t);
                assert(self.has_edge(s, w[0], m) && self.runs_to(m, w.skip(1), t));
            }
            if self.runs_to(s, w, t) {
                let m = choose|m: int|
                    #[trigger] self.has_edge(s, w[0], m) && self.runs_to(m, w.skip(1), t);
                self.lemma_extend_run_unchanged(other, u0, c0, v0, m, w.skip(1), t);
                assert(other.has_edge(s, w[0], m) && other.runs_to(m, w.skip(1), t));
            }
        }
    }

    /// After adding one edge into a fresh edgeless state, the runs that
    /// end there are exactly the old runs to the edge's source, extended
    /// by its symbol.
    pub proof fn lemma_extend_run_new(
        self,
        other: Self,
        u0: int,
        c0: T,
        v0: int,
        s: int,
        w: Seq<T>,
    )
        requires
            forall|s2: int, x: T, d: int|
                #![trigger self.has_edge(s2, x, d)]
                #![trigger other.has_edge(s2, x, d)]
                other.has_edge(s2, x, d) <==> (self.has_edge(s2, x, d) || (s2 == u0 && x == c0
                    && d == v0)),
            forall|x: T, d: int| !(#[trigger] self.has_edge(v0, x, d)),
            forall|x: T, d: int| !(#[trigger] other.has_edge(v0, x, d)),
            forall|s2: int, x: T| !(#[trigger] self.has_edge(s2, x, v0)),
            s != v0,
            u0 != v0,
        ensures
            other.runs_to(s, w, v0) == (w.len() > 0 && w.last() == c0 && self.runs_to(
                s,
                w.drop_last(),
                u0,
            )),
    {
        if other.runs_to(s, w, v0) {
            assert(w.len() > 0) by {
                if w.len() == 0 {
                    assert(s == v0);
                }
            }
            other.lemma_last_step(s, w, v0);
            let m = choose|m: int|
                #[trigger] other.runs_to(s, w.drop_last(), m) && other.has_edge(m, w.last(), v0);
            assert(m == u0 && w.last() == c0) by {
                if self.has_edge(m, w.last(), v0) {
                    assert(false);
                }
            }
            self.lemma_extend_run_unchanged(other, u0, c0, v0, s, w.drop_last(), u0);
        }
        if w.len() > 0 && w.last() == c0 && self.runs_to(s, w.drop_last(), u0) {
            self.lemma_extend_run_unchanged(other, u0, c0, v0, s, w.drop_last(), u0);
            other.lemma_runs_to_push(s, w.drop_last(), u0, c0, v0);
            assert(w =~= w.drop_last().push(w.last()));
        }
    }

    /// Raising one state's accept flag adds exactly the words that run
    /// into that state.
    pub proof fn lemma_raise_flag_accepts(self, other: Self, r0: int, s: int, w: Seq<T>)
        requires
            forall|s2: int|
                #![trigger self.edges_at(s2)]
                #![trigger other.edges_at(s2)]
                other.edges_at(s2) == self.edges_at(s2),
            forall|s2: int|
                #![trigger self.accepting(s2)]
                #![trigger other.accepting(s2)]
                other.accepting(s2) == (self.accepting(s2) || s2 == r0),
        ensures
            other.accepts_from(s, w) == (self.accepts_from(s, w) || other.runs_to(s, w, r0)),
        decreases w.len(),
    {
        self.lemma_edges_pointwise(other);
        if w.len() == 0 {
        } else {
            if other.accepts_from(s, w) {
                let m = choose|m: int|
                    #[trigger] other.has_edge(s, w[0], m) && other.accepts_from(m, w.skip(1));
                self.lemma_raise_flag_accepts(other, r0, m, w.skip(1));
                if self.accepts_from(m, w.skip(1)) {
                    assert(self.has_edge(s, w[0], m) && self.accepts_from(m, w.skip(1)));
                } else {
                    assert(other.has_edge(s, w[0], m) && other.runs_to(m, w.skip(1), r0));
                    assert(other.runs_to(s, w, r0));
                }
            }
            if self.accepts_from(s, w) {
                let m = choose|m: int|
                    #[trigger] self.has_edge(s, w[0], m) && self.accepts_from(m, w.skip(1));
                self.lemma_raise_flag_accepts(other, r0, m, w.skip(1));
                assert(other.has_edge(s, w[0], m) && other.accepts_from(m, w.skip(1)));
            }
            if other.runs_to(s, w, r0) {
                let m = choose|m: int|
                    #[trigger] other.has_edge(s, w[0], m) && other.runs_to(m, w.skip(1), r0);
                self.lemma_raise_flag_accepts(other, r0, m, w.skip(1));
                assert(other.accepts_from(m, w.skip(1)));
                assert(other.has_edge(s, w[0], m) && other.accepts_from(m, w.skip(1)));
            }
        }
    }

    /// Acceptance from a state implies that the state is productive.
    pub proof fn lemma_accepts_productive(self, s: int, w: Seq<T>)
        requires
            self.accepts_from(s, w),
        ensures
            self.productive(s),
    {
        self.lemma_accepts_iff_run(s, w);
        let t = choose|t: int| #[trigger] self.runs_to(s, w, t) && self.accepting(t);
        assert(self.runs_to(s, w, t) && self.accepting(t));
    }

    /// Removing the unreachable states does not change the language:
    /// `other` is `self` with every state not reachable from the initial
    /// state removed, and accepts the same words.
    pub proof fn lemma_prune_unreachable_accepts(self, other: Self, s: int, w: Seq<T>)
        requires
            other.initial_id() == self.initial_id(),
            forall|s2: int|
                #[trigger] other.accepting(s2) <==> self.accepting(s2) && self.reachable(s2),
            forall|s2: int, x: T, d: int|
                #![trigger other.has_edge(s2, x, d)]
                #![trigger self.has_edge(s2, x, d)]
                other.has_edge(s2, x, d) <==> self.has_edge(s2, x, d) && self.reachable(s2)
                    && self.reachable(d),
            self.reachable(s),
        ensures
            self.accepts_from(s, w) == other.accepts_from(s, w),
        decreases w.len(),
    {
        if w.len() == 0 {
        } else {
            if self.accepts_from(s, w) {
                let m = choose|m: int|
                    #[trigger] self.has_edge(s, w[0], m) && self.accepts_from(m, w.skip(1));
                self.lemma_reachable_step(s, w[0], m);
                self.lemma_prune_unreachable_accepts(other, m, w.skip(1));
                assert(other.has_edge(s, w[0], m) && other.accepts_from(m, w.skip(1)));
            }
            if other.accepts_from(s, w) {
                let m = choose|m: int|
                    #[trigger] other.has_edge(s, w[0], m) && other.accepts_from(m, w.skip(1));
                self.lemma_reachable_step(s, w[0], m);
                self.lemma_prune_unreachable_accepts(other, m, w.skip(1));
                assert(self.has_edge(s, w[0], m) && self.accepts_from(m, w.skip(1)));
            }
        }
    }

    /// Removing the dead states does not change the language: `other` is
    /// `self` with every state that reaches no accepting state removed,
    /// and accepts the same words from every state.
    pub proof fn lemma_prune_dead_accepts(self, other: Self, s: int, w: Seq<T>)
        requires
            forall|s2: int|
                #[trigger] other.accepting(s2) <==> self.accepting(s2) && self.productive(s2),
            forall|s2: int, x: T, d: int|
                #![trigger other.has_edge(s2, x, d)]
                #![trigger self.has_edge(s2, x, d)]
                other.has_edge(s2, x, d) <==> self.has_edge(s2, x, d) && self.productive(s2)
                    && self.productive(d),
        ensures
            self.accepts_from(s, w) == other.accepts_from(s, w),
        decreases w.len(),
    {
        if w.len() == 0 {
            if self.accepting(s) {
                self.lemma_accepting_productive(s);
            }
        } else {
            if self.accepts_from(s, w) {
                let m = choose|m: int|
                    #[trigger] self.has_edge(s, w[0], m) && self.accepts_from(m, w.skip(1));
                self.lemma_accepts_productive(m, w.skip(1));
                self.lemma_productive_step(s, w[0], m);
                self.lemma_prune_dead_accepts(other, m, w.skip(1));
                assert(other.has_edge(s, w[0], m) && other.accepts_from(m, w.skip(1)));
            }
            if other.accepts_from(s, w) {
                let m = choose|m: int|
                    #[trigger] other.has_edge(s, w[0], m) && other.accepts_from(m, w.skip(1));
                self.lemma_prune_dead_accepts(other, m, w.skip(1));
                assert(self.has_edge(s, w[0], m) && self.accepts_from(m, w.skip(1)));
            }
        }
    }

    /// Whether a deterministic automaton accepts the given word: walk
    /// the unique run and test the final state's flag.
    pub fn recognizes(&self, word: &Vec<T>) -> (r: bool)
        requires
            self.wf(),
            self.deterministic(),
        ensures
            r == self.accepts(word@),
    {
        let mut cur = self.initial();
        let n = word.len();
        proof {
            assert(word@.skip(0) =~= word@);
        }
        for i in 0..n
            invariant
                self.wf(),
                self.deterministic(),
                n == word@.len(),
                (cur as int) < self.n_slots(),
                self.accepts(word@) == self.accepts_from(cur as int, word@.skip(i as int)),
        {
            let ds = self.dests_on(cur, &word[i]);
            let ghost w = word@.skip(i as int);
            proof {
                assert(w[0] == word@[i as int]);
                assert(w.skip(1) =~= word@.skip(i + 1));
            }
            if ds.len() == 0 {
                proof {
                    assert(!self.accepts_from(cur as int, w)) by {
                        if self.accepts_from(cur as int, w) {
                            let m = choose|m: int|
                                #[trigger] self.has_edge(cur as int, w[0], m)
                                    && self.accepts_from(m, w.skip(1));
                        }
                    }
                }
                return false;
            }
            let d = ds[0];
            proof {
                assert(ds@.contains(ds@[0]));
                assert(self.has_edge(cur as int, w[0], d as int));
                assert(self.live(d as int));
                assert(self.accepts_from(cur as int, w) == self.accepts_from(
                    d as int,
                    w.skip(1),
                )) by {
                    if self.accepts_from(cur as int, w) {
                        let m = choose|m: int|
                            #[trigger] self.has_edge(cur as int, w[0], m) && self.accepts_from(
                                m,
                                w.skip(1),
                            );
                        if m != d as int {
                            assert(self.nondet_at(cur as int, w[0]));
                        }
                    }
                    if self.accepts_from(d as int, w.skip(1)) {
                        assert(self.has_edge(cur as int, w[0], d as int) && self.accepts_from(
                            d as int,
                            w.skip(1),
                        ));
                    }
                }
            }
            cur = d;
        }
        proof {
            assert(word@.skip(n as int) =~= Seq::<T>::empty());
        }
        self.state_accept(cur)
    }

    /// A run of the full automaton survives the removal of the
    /// unreachable states when it starts from a reachable state.
    pub proof fn lemma_prune_unreachable_run(self, other: Self, s: int, w: Seq<T>, t: int)
        requires
            forall|s2: int, x: T, d: int|
                #![trigger other.has_edge(s2, x, d)]
                #![trigger self.has_edge(s2, x, d)]
                other.has_edge(s2, x, d) <==> self.has_edge(s2, x, d) && self.reachable(s2)
                    && self.reachable(d),
            self.reachable(s),
            self.runs_to(s, w, t),
        ensures
            other.runs_to(s, w, t),
        decreases w.len(),
    {
        if w.len() == 0 {
        } else {
            let m = choose|m: int|
                #[trigger] self.has_edge(s, w[0], m) && self.runs_to(m, w.skip(1), t);
            self.lemma_reachable_step(s, w[0], m);
            self.lemma_prune_unreachable_run(other, m, w.skip(1), t);
            assert(other.has_edge(s, w[0], m) && other.runs_to(m, w.skip(1), t));
        }
    }

    /// A run into an accepting state survives the removal of the dead
    /// states.
    pub proof fn lemma_prune_dead_run(self, other: Self, s: int, w: Seq<T>, t: int)
        requires
            forall|s2: int, x: T, d: int|
                #![trigger other.has_edge(s2, x, d)]
                #![trigger self.has_edge(s2, x, d)]
                other.has_edge(s2, x, d) <==> self.has_edge(s2, x, d) && self.productive(s2)
                    && self.productive(d),
            self.runs_to(s, w, t),
            self.accepting(t),
        ensures
            other.runs_to(s, w, t),
        decreases w.len(),
    {
        if w.len() == 0 {
        } else {
            let m = choose|m: int|
                #[trigger] self.has_edge(s, w[0], m) && self.runs_to(m, w.skip(1), t);
            assert(self.productive(m)) by {
                assert(self.runs_to(m, w.skip(1), t) && self.accepting(t));
            }
            assert(self.productive(s)) by {
                self.lemma_productive_step(s, w[0], m);
            }
            self.lemma_prune_dead_run(other, m, w.skip(1), t);
            assert(other.has_edge(s, w[0], m) && other.runs_to(m, w.skip(1), t));
        }
    }
}

} // verus!
