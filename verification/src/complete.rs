//! Completion: an explicit error state that absorbs every otherwise
//! undefined input, making the automaton total on its alphabet.

use vstd::prelude::*;

verus! {

use crate::dfa::Dfa;
use crate::dfa::Transitable;
use crate::dfa::Transition;

impl<T: Transitable> Dfa<T> {
    /// No run from a non-accepting all-self-loop sink ever accepts.
    proof fn lemma_sink_rejects(self, e: int, w: Seq<T>)
        requires
            forall|x: T, d: int| #[trigger] self.has_edge(e, x, d) ==> d == e,
            !self.accepting(e),
        ensures
            !self.accepts_from(e, w),
        decreases w.len(),
    {
        if w.len() == 0 {
        } else {
            if self.accepts_from(e, w) {
                let m = choose|m: int|
                    #[trigger] self.has_edge(e, w[0], m) && self.accepts_from(m, w.skip(1));
                assert(m == e);
                self.lemma_sink_rejects(e, w.skip(1));
            }
        }
    }

    /// Adding a non-accepting sink and edges that only lead into it does
    /// not change the words accepted from any other state.
    pub(crate) proof fn lemma_sink_preserves(self, other: Self, e: int, s: int, w: Seq<T>)
        requires
            forall|s2: int| #[trigger] other.accepting(s2) == self.accepting(s2),
            !other.accepting(e),
            forall|s2: int, x: T, d: int|
                #![trigger other.has_edge(s2, x, d)]
                #![trigger self.has_edge(s2, x, d)]
                (self.has_edge(s2, x, d) ==> other.has_edge(s2, x, d)) && (other.has_edge(s2, x, d)
                    ==> (self.has_edge(s2, x, d) || d == e)),
            forall|x: T, d: int| !(#[trigger] self.has_edge(e, x, d)),
            s != e,
        ensures
            other.accepts_from(s, w) == self.accepts_from(s, w),
        decreases w.len(),
    {
        assert forall|x: T, d: int| #[trigger] other.has_edge(e, x, d) implies d == e by {}
        if w.len() == 0 {
        } else {
            if self.accepts_from(s, w) {
                let m = choose|m: int|
                    #[trigger] self.has_edge(s, w[0], m) && self.accepts_from(m, w.skip(1));
                assert(m != e);
                self.lemma_sink_preserves(other, e, m, w.skip(1));
                assert(other.has_edge(s, w[0], m) && other.accepts_from(m, w.skip(1)));
            }
            if other.accepts_from(s, w) {
                let m = choose|m: int|
                    #[trigger] other.has_edge(s, w[0], m) && other.accepts_from(m, w.skip(1));
                if m == e {
                    other.lemma_sink_rejects(e, w.skip(1));
                    assert(false);
                } else {
                    self.lemma_sink_preserves(other, e, m, w.skip(1));
                    assert(self.has_edge(s, w[0], m) && self.accepts_from(m, w.skip(1)));
                }
            }
        }
    }

    /// Whether every existing state already reads every alphabet symbol.
    fn is_total(&self) -> (r: bool)
        requires
            self.wf(),
        ensures
            r == self.total_on_alphabet(),
    {
        let alpha = self.clone_alphabet();
        let al = alpha.len();
        let n = self.state_slot_count();
        for s in 0..n
            invariant
                self.wf(),
                al == alpha@.len(),
                alpha@ == self.alpha_sq(),
                n == self.n_slots(),
                forall|s2: int, x: T|
                    0 <= s2 < s && self.live(s2) && self.alpha_has(x) ==> #[trigger] self.has_out(
                        s2,
                        x,
                    ),
        {
            if self.state_is_live(s) {
                for k in 0..al
                    invariant
                        self.wf(),
                        s < n,
                        al == alpha@.len(),
                        alpha@ == self.alpha_sq(),
                        n == self.n_slots(),
                        self.live(s as int),
                        forall|s2: int, x: T|
                            0 <= s2 < s && self.live(s2) && self.alpha_has(x)
                                ==> #[trigger] self.has_out(s2, x),
                        forall|k2: int|
                            0 <= k2 < k ==> #[trigger] self.has_out(s as int, alpha@[k2]),
                {
                    let ds = self.dests_on(s, &alpha[k]);
                    if ds.len() == 0 {
                        proof {
                            assert(!self.has_out(s as int, alpha@[k as int])) by {
                                if self.has_out(s as int, alpha@[k as int]) {
                                    let d0 = choose|d0: int|
                                        self.has_edge(s as int, alpha@[k as int], d0);
                                }
                            }
                            assert(self.alpha_has(alpha@[k as int])) by {
                                assert(self.alpha_sq()[k as int] == alpha@[k as int]);
                            }
                            assert(!self.total_on_alphabet());
                        }
                        return false;
                    }
                    proof {
                        assert(self.has_out(s as int, alpha@[k as int])) by {
                            assert(ds@.contains(ds@[0]));
                            assert(self.has_edge(s as int, alpha@[k as int], ds@[0] as int));
                        }
                    }
                }
                proof {
                    assert forall|x: T|
                        self.alpha_has(x) implies #[trigger] self.has_out(s as int, x) by {
                        let k2 = choose|k2: int|
                            0 <= k2 < self.alpha_sq().len() && self.alpha_sq()[k2] == x;
                        assert(self.has_out(s as int, alpha@[k2]));
                    }
                }
            }
        }
        proof {
            assert forall|s2: int, x: T|
                self.live(s2) && self.alpha_has(x) implies #[trigger] self.has_out(s2, x) by {
                assert(0 <= s2 < n);
            }
        }
        true
    }

    /// Complete the automaton on its alphabet. When some state lacks an
    /// edge on some alphabet symbol, add one fresh non-accepting error
    /// state and, for every state and every alphabet symbol without an
    /// outgoing edge, an edge into it; the error state itself loops on
    /// the whole alphabet. An automaton that is already total is left
    /// untouched, so a second completion adds nothing. Either way the
    /// automaton ends total on its alphabet, the language is unchanged,
    /// and a deterministic automaton ends with exactly one edge per
    /// state and symbol.
    pub fn insert_error_state(&mut self)
        requires
            old(self).wf(),
        ensures
            final(self).wf(),
            final(self).initial_id() == old(self).initial_id(),
            final(self).current_id() == old(self).current_id(),
            final(self).alpha_sq() == old(self).alpha_sq(),
            old(self).total_on_alphabet() ==> *final(self) == *old(self),
            !old(self).total_on_alphabet() ==> final(self).n_slots() == old(self).n_slots() + 1
                && final(self).state_sq()[old(self).n_slots() as int] == Some(false),
            forall|s: int|
                0 <= s < old(self).n_slots() ==> final(self).state_sq()[s] == old(
                    self,
                ).state_sq()[s],
            forall|s: int, x: T, d: int|
                #![trigger final(self).has_edge(s, x, d)]
                #![trigger old(self).has_edge(s, x, d)]
                final(self).has_edge(s, x, d) <==> (old(self).has_edge(s, x, d) || (!old(
                    self,
                ).total_on_alphabet() && d == old(self).n_slots() && final(self).live(s) && old(
                    self,
                ).alpha_has(x) && !old(self).has_out(s, x))),
            final(self).total_on_alphabet(),
            forall|s: int, x: T|
                final(self).live(s) && final(self).alpha_has(x) ==> #[trigger] final(self).has_out(s, x),
            old(self).deterministic() ==> final(self).deterministic(),
            forall|w: Seq<T>| #[trigger] final(self).accepts(w) == old(self).accepts(w),
    {
        if self.is_total() {
            return ;
        }
        let ghost orig = *old(self);
        let e = self.add_state(false);
        let ghost pre = *self;
        let alpha = self.clone_alphabet();
        let al = alpha.len();
        let n = self.state_slot_count();
        proof {
            assert(n == orig.n_slots() + 1);
            assert forall|x: T, d: int| !(#[trigger] orig.has_edge(e as int, x, d)) by {
                if orig.has_edge(e as int, x, d) {
                    assert(orig.live(e as int));
                }
            }
            assert forall|s3: int|
                #![trigger pre.edges_at(s3)]
                #![trigger orig.edges_at(s3)]
                pre.edges_at(s3) == orig.edges_at(s3) by {
                if 0 <= s3 < orig.trans_sq().len() {
                    assert(pre.edges_at(s3) == orig.edges_at(s3));
                } else if s3 == orig.trans_sq().len() {
                    assert(pre.edges_at(s3) =~= Seq::<Transition<T>>::empty());
                    assert(orig.edges_at(s3) =~= Seq::<Transition<T>>::empty());
                }
            }
            orig.lemma_edges_pointwise(pre);
        }
        for s in 0..n
            invariant
                self.wf(),
                al == alpha@.len(),
                alpha@ == orig.alpha_sq(),
                n == self.n_slots(),
                n == orig.n_slots() + 1,
                e == orig.n_slots(),
                self.state_sq() == pre.state_sq(),
                self.alpha_sq() == orig.alpha_sq(),
                self.initial_id() == orig.initial_id(),
                self.current_id() == orig.current_id(),
                pre.state_sq() == orig.state_sq().push(Some(false)),
                forall|s2: int, x: T, d: int|
                    #![trigger self.has_edge(s2, x, d)]
                    #![trigger orig.has_edge(s2, x, d)]
                    self.has_edge(s2, x, d) <==> (orig.has_edge(s2, x, d) || (d == e as int && 0
                        <= s2 < s && self.live(s2) && orig.alpha_has(x) && !orig.has_out(s2, x))),
        {
            let is_live = self.state_is_live(s);
            if is_live {
                for k in 0..al
                    invariant
                        self.wf(),
                        s < n,
                        al == alpha@.len(),
                        alpha@ == orig.alpha_sq(),
                        n == self.n_slots(),
                        n == orig.n_slots() + 1,
                        e == orig.n_slots(),
                        self.live(s as int),
                        self.live(e as int),
                        self.state_sq() == pre.state_sq(),
                        self.alpha_sq() == orig.alpha_sq(),
                        self.initial_id() == orig.initial_id(),
                        self.current_id() == orig.current_id(),
                        pre.state_sq() == orig.state_sq().push(Some(false)),
                        forall|s2: int, x: T, d: int|
                            #![trigger self.has_edge(s2, x, d)]
                            #![trigger orig.has_edge(s2, x, d)]
                            self.has_edge(s2, x, d) <==> (orig.has_edge(s2, x, d) || (d == e as int
                                && self.live(s2) && orig.alpha_has(x) && !orig.has_out(s2, x) && (0
                                <= s2 < s || (s2 == s as int && alpha@.subrange(
                                0,
                                k as int,
                            ).contains(x))))),
                {
                    let ds = self.dests_on(s, &alpha[k]);
                    let ghost cur = *self;
                    if ds.len() == 0 {
                        proof {
                            assert(!orig.has_out(s as int, alpha@[k as int])) by {
                                if orig.has_out(s as int, alpha@[k as int]) {
                                    let d0 = choose|d0: int|
                                        orig.has_edge(s as int, alpha@[k as int], d0);
                                    assert(cur.has_edge(s as int, alpha@[k as int], d0));
                                    assert(ds@.contains(ds@[0]) || true);
                                    assert(exists|d2: int|
                                        cur.has_edge(s as int, alpha@[k as int], d2));
                                }
                            }
                            assert(orig.alpha_has(alpha@[k as int])) by {
                                assert(orig.alpha_sq()[k as int] == alpha@[k as int]);
                            }
                        }
                        self.create_transition_between(s, e, alpha[k].dup());
                        proof {
                            assert forall|s2: int, x: T, d: int|
                                #![trigger self.has_edge(s2, x, d)]
                                #![trigger orig.has_edge(s2, x, d)]
                                self.has_edge(s2, x, d) <==> (orig.has_edge(s2, x, d) || (d
                                    == e as int && self.live(s2) && orig.alpha_has(x) && !orig.has_out(
                                    s2,
                                    x,
                                ) && (0 <= s2 < s || (s2 == s as int && alpha@.subrange(
                                    0,
                                    k + 1,
                                ).contains(x))))) by {
                                assert(self.live(s2) == cur.live(s2));
                                if self.has_edge(s2, x, d) {
                                    if cur.has_edge(s2, x, d) {
                                        if !orig.has_edge(s2, x, d) {
                                            assert(alpha@.subrange(0, k as int).contains(x)
                                                ==> alpha@.subrange(0, k + 1).contains(x)) by {
                                                if alpha@.subrange(0, k as int).contains(x) {
                                                    let i2 = choose|i2: int|
                                                        0 <= i2 < k && #[trigger] alpha@.subrange(
                                                            0,
                                                            k as int,
                                                        )[i2] == x;
                                                    assert(alpha@.subrange(0, k + 1)[i2] == x);
                                                }
                                            }
                                        }
                                    } else {
                                        assert(s2 == s as int && x == alpha@[k as int] && d
                                            == e as int);
                                        assert(alpha@.subrange(0, k + 1)[k as int] == x);
                                    }
                                }
                                if orig.has_edge(s2, x, d) {
                                    assert(cur.has_edge(s2, x, d));
                                    assert(self.has_edge(s2, x, d));
                                }
                                if d == e as int && self.live(s2) && orig.alpha_has(x)
                                    && !orig.has_out(s2, x) && (0 <= s2 < s || (s2 == s as int
                                    && alpha@.subrange(0, k + 1).contains(x))) {
                                    if s2 == s as int && !alpha@.subrange(0, k as int).contains(
                                        x,
                                    ) && !(s2 < s) {
                                        let i2 = choose|i2: int|
                                            0 <= i2 < k + 1 && #[trigger] alpha@.subrange(
                                                0,
                                                k + 1,
                                            )[i2] == x;
                                        assert(i2 == k as int) by {
                                            if i2 < k as int {
                                                assert(alpha@.subrange(0, k as int)[i2] == x);
                                            }
                                        }
                                        assert(x == alpha@[k as int]);
                                        assert(self.has_edge(s2, x, d));
                                    } else {
                                        assert(cur.has_edge(s2, x, d));
                                        assert(self.has_edge(s2, x, d));
                                    }
                                }
                            }
                        }
                    } else {
                        proof {
                            assert(orig.has_out(s as int, alpha@[k as int])) by {
                                assert(exists|d2: int|
                                    cur.has_edge(s as int, alpha@[k as int], d2));
                                let d2 = choose|d2: int|
                                    cur.has_edge(s as int, alpha@[k as int], d2);
                                assert(orig.has_edge(s as int, alpha@[k as int], d2));
                            }
                            assert forall|s2: int, x: T, d: int|
                                #![trigger self.has_edge(s2, x, d)]
                                #![trigger orig.has_edge(s2, x, d)]
                                self.has_edge(s2, x, d) <==> (orig.has_edge(s2, x, d) || (d
                                    == e as int && self.live(s2) && orig.alpha_has(x) && !orig.has_out(
                                    s2,
                                    x,
                                ) && (0 <= s2 < s || (s2 == s as int && alpha@.subrange(
                                    0,
                                    k + 1,
                                ).contains(x))))) by {
                                if alpha@.subrange(0, k as int).contains(x) {
                                    let i2 = choose|i2: int|
                                        0 <= i2 < k && #[trigger] alpha@.subrange(
                                            0,
                                            k as int,
                                        )[i2] == x;
                                    assert(alpha@.subrange(0, k + 1)[i2] == x);
                                }
                                if s2 == s as int && alpha@.subrange(0, k + 1).contains(x)
                                    && !alpha@.subrange(0, k as int).contains(x) {
                                    let i2 = choose|i2: int|
                                        0 <= i2 < k + 1 && #[trigger] alpha@.subrange(
                                            0,
                                            k + 1,
                                        )[i2] == x;
                                    assert(i2 == k as int) by {
                                        if i2 < k as int {
                                            assert(alpha@.subrange(0, k as int)[i2] == x);
                                        }
                                    }
                                    assert(x == alpha@[k as int]);
                                }
                            }
                        }
                    }
                }
                proof {
                    assert forall|s2: int, x: T, d: int|
                        #![trigger self.has_edge(s2, x, d)]
                        #![trigger orig.has_edge(s2, x, d)]
                        self.has_edge(s2, x, d) <==> (orig.has_edge(s2, x, d) || (d == e as int
                            && 0 <= s2 < s + 1 && self.live(s2) && orig.alpha_has(x)
                            && !orig.has_out(s2, x))) by {
                        if d == e as int && s2 == s as int && self.live(s2) && orig.alpha_has(x)
                            && !orig.has_out(s2, x) {
                            let i2 = choose|i2: int|
                                0 <= i2 < alpha@.len() && #[trigger] orig.alpha_sq()[i2] == x;
                            assert(alpha@.subrange(0, al as int)[i2] == x);
                            assert(alpha@.subrange(0, al as int).contains(x));
                        }
                        if self.has_edge(s2, x, d) && !orig.has_edge(s2, x, d) && s2 == s as int {
                            assert(alpha@.subrange(0, al as int).contains(x) || s2 < s as int
                                || true);
                        }
                    }
                }
            } else {
                proof {
                    assert forall|s2: int, x: T, d: int|
                        #![trigger self.has_edge(s2, x, d)]
                        #![trigger orig.has_edge(s2, x, d)]
                        self.has_edge(s2, x, d) <==> (orig.has_edge(s2, x, d) || (d == e as int
                            && 0 <= s2 < s + 1 && self.live(s2) && orig.alpha_has(x)
                            && !orig.has_out(s2, x))) by {}
                }
            }
        }
        proof {
            let fin = *self;
            // totality on the alphabet
            assert forall|s2: int, x: T|
                fin.live(s2) && fin.alpha_has(x) implies #[trigger] fin.has_out(s2, x) by {
                if orig.has_out(s2, x) {
                    let d0 = choose|d0: int| orig.has_edge(s2, x, d0);
                    assert(fin.has_edge(s2, x, d0));
                } else {
                    assert(0 <= s2 < n);
                    assert(fin.has_edge(s2, x, e as int));
                }
            }
            // a deterministic automaton stays deterministic
            if orig.deterministic() {
                assert forall|s2: int, x: T| !(#[trigger] fin.nondet_at(s2, x)) by {
                    if fin.nondet_at(s2, x) {
                        let (d1, d2) = choose|d1: int, d2: int|
                            d1 != d2 && #[trigger] fin.has_edge(s2, x, d1) && #[trigger] fin.has_edge(
                                s2,
                                x,
                                d2,
                            );
                        if orig.has_edge(s2, x, d1) && orig.has_edge(s2, x, d2) {
                            assert(orig.nondet_at(s2, x));
                        } else if !orig.has_edge(s2, x, d1) && !orig.has_edge(s2, x, d2) {
                            assert(d1 == e as int && d2 == e as int);
                        } else {
                            let od = if orig.has_edge(s2, x, d1) {
                                d1
                            } else {
                                d2
                            };
                            assert(orig.has_edge(s2, x, od));
                            assert(orig.has_out(s2, x));
                        }
                    }
                }
            }
            // the language is unchanged
            assert forall|w: Seq<T>| #[trigger] fin.accepts(w) == orig.accepts(w) by {
                assert forall|s2: int| #[trigger] fin.accepting(s2) == orig.accepting(s2) by {}
                assert forall|x: T, d: int| !(#[trigger] orig.has_edge(e as int, x, d)) by {
                    if orig.has_edge(e as int, x, d) {
                        assert(orig.live(e as int));
                    }
                }
                assert(orig.initial_id() < orig.n_slots());
                orig.lemma_sink_preserves(fin, e as int, orig.initial_id(), w);
            }
        }
    }
}

} // verus!
