//! Reachability and productivity analysis, and the passes that remove
//! unreachable and dead states.

use vstd::prelude::*;

verus! {

use crate::dfa::Dfa;
use crate::dfa::Transitable;

/// How many entries of `s` are set.
pub open spec fn count_trues(s: Seq<bool>) -> nat
    decreases s.len(),
{
    if s.len() == 0 {
        0
    } else {
        count_trues(s.drop_last()) + if s.last() {
            1nat
        } else {
            0nat
        }
    }
}

proof fn lemma_count_trues_bound(s: Seq<bool>)
    ensures
        count_trues(s) <= s.len(),
    decreases s.len(),
{
    if s.len() > 0 {
        lemma_count_trues_bound(s.drop_last());
    }
}

proof fn lemma_count_trues_update(s: Seq<bool>, i: int)
    requires
        0 <= i < s.len(),
        !s[i],
    ensures
        count_trues(s.update(i, true)) == count_trues(s) + 1,
    decreases s.len(),
{
    let u = s.update(i, true);
    if i == s.len() - 1 {
        assert(u.drop_last() =~= s.drop_last());
    } else {
        assert(u.drop_last() =~= s.drop_last().update(i, true));
        lemma_count_trues_update(s.drop_last(), i);
        assert(u.last() == s.last());
    }
}

/// In a closed marking that holds of `s`, every run from `s` ends in a
/// marked state: `seen` contains every state an edge leaves a marked
/// state for.
proof fn lemma_closed_seen_covers<T: Transitable>(
    a: Dfa<T>,
    seen: Seq<bool>,
    s: int,
    w: Seq<T>,
    t: int,
)
    requires
        seen.len() == a.n_slots(),
        0 <= s < seen.len(),
        seen[s],
        a.runs_to(s, w, t),
        forall|u: int, x: T, d: int|
            0 <= u < seen.len() && seen[u] && #[trigger] a.has_edge(u, x, d) ==> 0 <= d < seen.len()
                && seen[d],
    ensures
        0 <= t < seen.len() && seen[t],
    decreases w.len(),
{
    if w.len() == 0 {
        assert(t == s);
    } else {
        let m = choose|m: int| #[trigger] a.has_edge(s, w[0], m) && a.runs_to(m, w.skip(1), t);
        assert(0 <= m < seen.len() && seen[m]);
        lemma_closed_seen_covers(a, seen, m, w.skip(1), t);
    }
}

/// In a closed productivity marking, every state with a run into an
/// accepting state is marked.
proof fn lemma_closed_prod_covers<T: Transitable>(
    a: Dfa<T>,
    prod: Seq<bool>,
    s: int,
    w: Seq<T>,
    t: int,
)
    requires
        a.wf(),
        prod.len() == a.n_slots(),
        a.runs_to(s, w, t),
        a.accepting(t),
        0 <= s < prod.len(),
        forall|u: int| 0 <= u < prod.len() && a.accepting(u) ==> prod[u],
        forall|u: int, x: T, d: int|
            0 <= u < prod.len() && !prod[u] && #[trigger] a.has_edge(u, x, d) ==> !prod[d],
    ensures
        prod[s],
    decreases w.len(),
{
    if w.len() == 0 {
        assert(s == t);
    } else {
        let m = choose|m: int| #[trigger] a.has_edge(s, w[0], m) && a.runs_to(m, w.skip(1), t);
        assert(a.live(m));
        lemma_closed_prod_covers(a, prod, m, w.skip(1), t);
        if !prod[s] {
            assert(!prod[m]);
        }
    }
}

impl<T: Transitable> Dfa<T> {
    /// The states no run from the initial state reaches, in ascending
    /// order: a breadth-first search from the initial state, followed by
    /// a sweep over the states it never marked.
    pub fn get_unreachable_states(&self) -> (r: Vec<usize>)
        requires
            self.wf(),
        ensures
            forall|k: int|
                0 <= k < r@.len() ==> self.live((#[trigger] r@[k]) as int) && !self.reachable(
                    r@[k] as int,
                ),
            forall|s: usize|
                self.live(s as int) && !self.reachable(s as int) ==> r@.contains(s),
            forall|k1: int, k2: int| 0 <= k1 < k2 < r@.len() ==> r@[k1] < r@[k2],
    {
        let n = self.state_slot_count();
        let mut seen: Vec<bool> = Vec::new();
        for i in 0..n
            invariant
                seen@.len() == i,
                forall|j: int| 0 <= j < i ==> !seen@[j],
        {
            seen.push(false);
        }
        proof {
            assert(count_trues(seen@) == 0) by {
                lemma_count_trues_bound(seen@);
                if count_trues(seen@) > 0 {
                    lemma_count_zero_all_false(seen@);
                }
            }
        }
        let ini = self.initial();
        let ghost seen0 = seen@;
        seen.set(ini, true);
        proof {
            lemma_count_trues_update(seen0, ini as int);
        }
        let mut queue: Vec<usize> = Vec::new();
        queue.push(ini);
        let mut qi: usize = 0;
        let mut cnt: usize = 1;
        proof {
            self.lemma_reachable_initial();
            assert forall|i: int|
                0 <= i < n && #[trigger] seen@[i] implies exists|k: int|
                0 <= k < queue@.len() && queue@[k] as int == i by {
                if i == ini as int {
                    assert(queue@[0] as int == i);
                } else {
                    assert(!seen0[i]);
                }
            }
        }
        while qi < queue.len()
            invariant
                self.wf(),
                n == self.n_slots(),
                seen@.len() == n,
                qi <= queue.len(),
                cnt == count_trues(seen@),
                cnt <= n,
                seen@[self.initial_id()],
                forall|k: int| 0 <= k < queue@.len() ==> (#[trigger] queue@[k]) < n,
                forall|k: int| 0 <= k < queue@.len() ==> seen@[(#[trigger] queue@[k]) as int],
                forall|i: int| 0 <= i < n && #[trigger] seen@[i] ==> self.reachable(i),
                forall|i: int|
                    0 <= i < n && #[trigger] seen@[i] ==> exists|k: int|
                        0 <= k < queue@.len() && queue@[k] as int == i,
                forall|k: int, x: T, d: int|
                    0 <= k < qi && #[trigger] self.has_edge(queue@[k] as int, x, d) ==> 0 <= d < n
                        && seen@[d],
            decreases (n - cnt) as int, (queue.len() - qi) as int,
        {
            let u = queue[qi];
            let ghost entry_cnt = cnt;
            let ghost entry_qlen = queue@.len();
            let row_len = self.edge_count(u);
            for j in 0..row_len
                invariant
                    self.wf(),
                    n == self.n_slots(),
                    seen@.len() == n,
                    qi < queue.len(),
                    queue@[qi as int] == u,
                    u < n,
                    row_len == self.edges_at(u as int).len(),
                    cnt == count_trues(seen@),
                    cnt <= n,
                    cnt >= entry_cnt,
                    queue@.len() >= entry_qlen,
                    cnt - entry_cnt >= queue@.len() - entry_qlen,
                    seen@[self.initial_id()],
                    forall|k: int| 0 <= k < queue@.len() ==> (#[trigger] queue@[k]) < n,
                    forall|k: int| 0 <= k < queue@.len() ==> seen@[(#[trigger] queue@[k]) as int],
                    forall|i: int| 0 <= i < n && #[trigger] seen@[i] ==> self.reachable(i),
                    forall|i: int|
                        0 <= i < n && #[trigger] seen@[i] ==> exists|k: int|
                            0 <= k < queue@.len() && queue@[k] as int == i,
                    forall|k: int, x: T, d: int|
                        0 <= k < qi && #[trigger] self.has_edge(queue@[k] as int, x, d) ==> 0 <= d
                            < n && seen@[d],
                    forall|j2: int|
                        0 <= j2 < j ==> {
                            let dd = (#[trigger] self.edges_at(u as int)[j2]).1 as int;
                            0 <= dd < n && seen@[dd]
                        },
            {
                let e = self.edge_dest(u, j);
                proof {
                    assert(self.has_edge(u as int, self.edges_at(u as int)[j as int].0, e as int));
                    assert(self.live(e as int));
                }
                if !seen[e] {
                    proof {
                        lemma_count_trues_update(seen@, e as int);
                        lemma_count_trues_bound(seen@.update(e as int, true));
                        assert(self.reachable(u as int));
                        self.lemma_reachable_step(
                            u as int,
                            self.edges_at(u as int)[j as int].0,
                            e as int,
                        );
                    }
                    let ghost q0 = queue@;
                    seen.set(e, true);
                    queue.push(e);
                    cnt = cnt + 1;
                    proof {
                        assert forall|i: int|
                            0 <= i < n && #[trigger] seen@[i] implies exists|k: int|
                            0 <= k < queue@.len() && queue@[k] as int == i by {
                            if i == e as int {
                                assert(queue@[queue@.len() - 1] as int == i);
                            } else {
                                let k = choose|k: int|
                                    0 <= k < q0.len() && #[trigger] q0[k] as int == i;
                                assert(queue@[k] as int == i);
                            }
                        }
                        assert forall|k: int, x: T, d: int|
                            0 <= k < qi && #[trigger] self.has_edge(queue@[k] as int, x, d)
                            implies 0 <= d < n && seen@[d] by {
                            assert(queue@[k] == q0[k]);
                        }
                    }
                }
            }
            qi = qi + 1;
            proof {
                assert forall|k: int, x: T, d: int|
                    0 <= k < qi && #[trigger] self.has_edge(queue@[k] as int, x, d) implies 0 <= d
                    < n && seen@[d] by {
                    if k == qi - 1 {
                        assert(queue@[k] == u);
                        let i = choose|i: int|
                            0 <= i < self.edges_at(u as int).len() && #[trigger] self.edges_at(
                                u as int,
                            )[i].0 == x && self.edges_at(u as int)[i].1 == d;
                        let dd = self.edges_at(u as int)[i].1 as int;
                        assert(0 <= dd < n && seen@[dd]);
                    }
                }
            }
        }
        // every seen state has only seen successors, so the unseen live
        // states are exactly the unreachable ones
        proof {
            assert forall|u: int, x: T, d: int|
                0 <= u < n && seen@[u] && #[trigger] self.has_edge(u, x, d) implies 0 <= d < n
                && seen@[d] by {
                let k = choose|k: int| 0 <= k < queue@.len() && #[trigger] queue@[k] as int == u;
                assert(self.has_edge(queue@[k] as int, x, d));
            }
        }
        let mut r: Vec<usize> = Vec::new();
        for i in 0..n
            invariant
                self.wf(),
                n == self.n_slots(),
                seen@.len() == n,
                forall|i2: int| 0 <= i2 < n && #[trigger] seen@[i2] ==> self.reachable(i2),
                forall|u: int, x: T, d: int|
                    0 <= u < n && seen@[u] && #[trigger] self.has_edge(u, x, d) ==> 0 <= d < n
                        && seen@[d],
                seen@[self.initial_id()],
                forall|k: int|
                    0 <= k < r@.len() ==> self.live((#[trigger] r@[k]) as int) && !self.reachable(
                        r@[k] as int,
                    ),
                forall|k: int| 0 <= k < r@.len() ==> (#[trigger] r@[k]) < i,
                forall|k1: int, k2: int| 0 <= k1 < k2 < r@.len() ==> r@[k1] < r@[k2],
                forall|s: int|
                    0 <= s < i && self.live(s) && !self.reachable(s) ==> r@.contains(s as usize),
        {
            let is_live = self.state_is_live(i);
            if is_live && !seen[i] {
                proof {
                    if self.reachable(i as int) {
                        let w = choose|w: Seq<T>|
                            self.runs_to(self.initial_id(), w, i as int);
                        lemma_closed_seen_covers(*self, seen@, self.initial_id(), w, i as int);
                    }
                }
                let ghost r0 = r@;
                r.push(i);
                proof {
                    assert forall|s: int|
                        0 <= s < i + 1 && self.live(s) && !self.reachable(s) implies r@.contains(
                        s as usize,
                    ) by {
                        if s == i as int {
                            assert(r@[r@.len() - 1] == s as usize);
                        } else {
                            assert(r0.contains(s as usize));
                            let k = choose|k: int| 0 <= k < r0.len() && r0[k] == s as usize;
                            assert(r@[k] == s as usize);
                        }
                    }
                }
            } else {
                proof {
                    if self.live(i as int) && !self.reachable(i as int) {
                        assert(seen@[i as int]);
                        assert(self.reachable(i as int));
                    }
                }
            }
        }
        r
    }
}

impl<T: Transitable> Dfa<T> {
    /// The dead states, in ascending order: the productive states are
    /// the least set that contains every accepting state and is closed
    /// under taking an edge into it; dead is live and not productive.
    pub fn get_dead_states(&self) -> (r: Vec<usize>)
        requires
            self.wf(),
        ensures
            forall|k: int|
                0 <= k < r@.len() ==> self.live((#[trigger] r@[k]) as int) && !self.productive(
                    r@[k] as int,
                ),
            forall|s: usize|
                self.live(s as int) && !self.productive(s as int) ==> r@.contains(s),
            forall|k1: int, k2: int| 0 <= k1 < k2 < r@.len() ==> r@[k1] < r@[k2],
    {
        let n = self.state_slot_count();
        let mut prod: Vec<bool> = Vec::new();
        let mut cnt: usize = 0;
        for i in 0..n
            invariant
                self.wf(),
                n == self.n_slots(),
                prod@.len() == i,
                cnt == count_trues(prod@),
                cnt <= i,
                forall|j: int| 0 <= j < i ==> (#[trigger] prod@[j]) == self.accepting(j),
        {
            let a = self.state_accept(i);
            let ghost p0 = prod@;
            prod.push(a);
            if a {
                cnt = cnt + 1;
            }
            proof {
                assert(prod@.drop_last() =~= p0);
            }
        }
        proof {
            assert forall|i: int| 0 <= i < n && #[trigger] prod@[i] implies self.productive(
                i,
            ) by {
                self.lemma_accepting_productive(i);
            }
        }
        let mut changed = true;
        while changed
            invariant
                self.wf(),
                n == self.n_slots(),
                prod@.len() == n,
                cnt == count_trues(prod@),
                cnt <= n,
                forall|i: int| 0 <= i < n && self.accepting(i) ==> #[trigger] prod@[i],
                forall|i: int| 0 <= i < n && #[trigger] prod@[i] ==> self.productive(i),
                !changed ==> (forall|u: int, x: T, d: int|
                    0 <= u < n && !prod@[u] && #[trigger] self.has_edge(u, x, d) ==> !prod@[d]),
            decreases (n - cnt) as int, (if changed {
                1int
            } else {
                0int
            }),
        {
            changed = false;
            let ghost cnt0 = cnt;
            for i in 0..n
                invariant
                    self.wf(),
                    n == self.n_slots(),
                    prod@.len() == n,
                    cnt == count_trues(prod@),
                    cnt <= n,
                    cnt >= cnt0,
                    changed ==> cnt > cnt0,
                    forall|i2: int| 0 <= i2 < n && self.accepting(i2) ==> #[trigger] prod@[i2],
                    forall|i2: int| 0 <= i2 < n && #[trigger] prod@[i2] ==> self.productive(i2),
                    !changed ==> (forall|i2: int, x: T, d: int|
                        0 <= i2 < i && !prod@[i2] && #[trigger] self.has_edge(i2, x, d)
                            ==> !prod@[d]),
            {
                if !prod[i] {
                    let m = self.edge_count(i);
                    let mut found = false;
                    for j in 0..m
                        invariant
                            self.wf(),
                            n == self.n_slots(),
                            prod@.len() == n,
                            i < n,
                            m == self.edges_at(i as int).len(),
                            found ==> exists|j2: int|
                                0 <= j2 < j && 0 <= (#[trigger] self.edges_at(i as int)[j2]).1 < n
                                    && prod@[self.edges_at(i as int)[j2].1 as int],
                            !found ==> (forall|j2: int|
                                0 <= j2 < j ==> {
                                    let dd = (#[trigger] self.edges_at(i as int)[j2]).1 as int;
                                    !(0 <= dd < n && prod@[dd])
                                }),
                    {
                        let d = self.edge_dest(i, j);
                        proof {
                            assert(self.has_edge(
                                i as int,
                                self.edges_at(i as int)[j as int].0,
                                d as int,
                            ));
                            assert(self.live(d as int));
                        }
                        if prod[d] {
                            found = true;
                        }
                    }
                    if found {
                        let ghost p0 = prod@;
                        prod.set(i, true);
                        proof {
                            lemma_count_trues_update(p0, i as int);
                            lemma_count_trues_bound(prod@);
                        }
                        cnt = cnt + 1;
                        changed = true;
                        proof {
                            let j2 = choose|j2: int|
                                0 <= j2 < m && 0 <= (#[trigger] self.edges_at(i as int)[j2]).1 < n
                                    && p0[self.edges_at(i as int)[j2].1 as int];
                            let x = self.edges_at(i as int)[j2].0;
                            let dd = self.edges_at(i as int)[j2].1 as int;
                            assert(self.has_edge(i as int, x, dd));
                            assert(self.productive(dd));
                            self.lemma_productive_step(i as int, x, dd);
                        }
                    } else {
                        proof {
                            if !changed {
                                assert forall|i2: int, x: T, d: int|
                                    0 <= i2 < i + 1 && !prod@[i2] && #[trigger] self.has_edge(
                                        i2,
                                        x,
                                        d,
                                    ) implies !prod@[d] by {
                                    if i2 == i as int {
                                        let j2 = choose|j2: int|
                                            0 <= j2 < self.edges_at(i2).len()
                                                && #[trigger] self.edges_at(i2)[j2].0 == x
                                                && self.edges_at(i2)[j2].1 == d;
                                        assert(self.live(d));
                                        let dd = self.edges_at(i2)[j2].1 as int;
                                        assert(!(0 <= dd < n && prod@[dd]));
                                    }
                                }
                            }
                        }
                    }
                }
            }
        }
        // at the fixed point, the unmarked live states are exactly the
        // dead ones
        let mut r: Vec<usize> = Vec::new();
        for i in 0..n
            invariant
                self.wf(),
                n == self.n_slots(),
                prod@.len() == n,
                forall|i2: int| 0 <= i2 < n && self.accepting(i2) ==> #[trigger] prod@[i2],
                forall|i2: int| 0 <= i2 < n && #[trigger] prod@[i2] ==> self.productive(i2),
                forall|u: int, x: T, d: int|
                    0 <= u < n && !prod@[u] && #[trigger] self.has_edge(u, x, d) ==> !prod@[d],
                forall|k: int|
                    0 <= k < r@.len() ==> self.live((#[trigger] r@[k]) as int) && !self.productive(
                        r@[k] as int,
                    ),
                forall|k: int| 0 <= k < r@.len() ==> (#[trigger] r@[k]) < i,
                forall|k1: int, k2: int| 0 <= k1 < k2 < r@.len() ==> r@[k1] < r@[k2],
                forall|s: int|
                    0 <= s < i && self.live(s) && !self.productive(s) ==> r@.contains(s as usize),
        {
            let is_live = self.state_is_live(i);
            if is_live && !prod[i] {
                proof {
                    if self.productive(i as int) {
                        let (w, t) = choose|w: Seq<T>, t: int|
                            #[trigger] self.runs_to(i as int, w, t) && self.accepting(t);
                        lemma_closed_prod_covers(*self, prod@, i as int, w, t);
                    }
                }
                let ghost r0 = r@;
                r.push(i);
                proof {
                    assert forall|s: int|
                        0 <= s < i + 1 && self.live(s) && !self.productive(s) implies r@.contains(
                        s as usize,
                    ) by {
                        if s == i as int {
                            assert(r@[r@.len() - 1] == s as usize);
                        } else {
                            assert(r0.contains(s as usize));
                            let k = choose|k: int| 0 <= k < r0.len() && r0[k] == s as usize;
                            assert(r@[k] == s as usize);
                        }
                    }
                }
            } else {
                proof {
                    if self.live(i as int) && !self.productive(i as int) {
                        assert(prod@[i as int]);
                        assert(self.productive(i as int));
                    }
                }
            }
        }
        r
    }
}

proof fn lemma_count_zero_all_false(s: Seq<bool>)
    requires
        forall|j: int| 0 <= j < s.len() ==> !s[j],
    ensures
        count_trues(s) == 0,
    decreases s.len(),
{
    if s.len() > 0 {
        lemma_count_zero_all_false(s.drop_last());
    }
}

/// `s` occurs in the id list `rm`.
pub open spec fn listed(rm: Seq<usize>, s: int) -> bool {
    exists|k: int| 0 <= k < rm.len() && #[trigger] rm[k] as int == s
}

impl<T: Transitable> Dfa<T> {
    /// Remove every state in `rm`, one by one, cascading edge deletion.
    fn remove_listed(&mut self, rm: &Vec<usize>)
        requires
            old(self).wf(),
        ensures
            final(self).wf(),
            final(self).n_slots() == old(self).n_slots(),
            final(self).initial_id() == old(self).initial_id(),
            final(self).current_id() == old(self).current_id(),
            forall|s: int|
                #![trigger final(self).live(s)]
                #![trigger old(self).live(s)]
                final(self).live(s) <==> old(self).live(s) && !listed(rm@, s),
            forall|s: int|
                #![trigger final(self).accepting(s)]
                #![trigger old(self).accepting(s)]
                final(self).accepting(s) <==> old(self).accepting(s) && !listed(rm@, s),
            forall|s: int, x: T, d: int|
                #![trigger final(self).has_edge(s, x, d)]
                #![trigger old(self).has_edge(s, x, d)]
                final(self).has_edge(s, x, d) <==> (old(self).has_edge(s, x, d) && !listed(rm@, s)
                    && !listed(rm@, d)),
    {
        let n = rm.len();
        for k in 0..n
            invariant
                self.wf(),
                n == rm@.len(),
                self.n_slots() == old(self).n_slots(),
                self.initial_id() == old(self).initial_id(),
                self.current_id() == old(self).current_id(),
                forall|s: int|
                    #![trigger self.live(s)]
                    #![trigger old(self).live(s)]
                    self.live(s) <==> old(self).live(s) && !listed(rm@.subrange(0, k as int), s),
                forall|s: int|
                    #![trigger self.accepting(s)]
                    #![trigger old(self).accepting(s)]
                    self.accepting(s) <==> old(self).accepting(s) && !listed(
                        rm@.subrange(0, k as int),
                        s,
                    ),
                forall|s: int, x: T, d: int|
                    #![trigger self.has_edge(s, x, d)]
                    #![trigger old(self).has_edge(s, x, d)]
                    self.has_edge(s, x, d) <==> (old(self).has_edge(s, x, d) && !listed(
                        rm@.subrange(0, k as int),
                        s,
                    ) && !listed(rm@.subrange(0, k as int), d)),
        {
            let ghost cur = *self;
            let idx = rm[k];
            self.remove_state(idx);
            proof {
                let sub0 = rm@.subrange(0, k as int);
                let sub1 = rm@.subrange(0, k + 1);
                assert(sub1 =~= sub0.push(rm@[k as int]));
                assert forall|s: int| #[trigger]
                    listed(sub1, s) == (listed(sub0, s) || s == idx as int) by {
                    if listed(sub1, s) {
                        let k2 = choose|k2: int| 0 <= k2 < sub1.len() && sub1[k2] as int == s;
                        if k2 < sub0.len() {
                            assert(sub0[k2] as int == s);
                        }
                    }
                    if listed(sub0, s) {
                        let k2 = choose|k2: int| 0 <= k2 < sub0.len() && sub0[k2] as int == s;
                        assert(sub1[k2] as int == s);
                    }
                    if s == idx as int {
                        assert(sub1[sub1.len() - 1] as int == s);
                    }
                }
                assert forall|s: int|
                    #![trigger self.live(s)]
                    #![trigger old(self).live(s)]
                    self.live(s) == (old(self).live(s) && !listed(sub1, s)) by {
                    assert(cur.live(s) == (old(self).live(s) && !listed(sub0, s)));
                    if cur.live(idx as int) {
                        assert(self.state_sq() == cur.state_sq().update(idx as int, None));
                        assert(self.live(s) == (cur.live(s) && s != idx as int));
                    } else {
                        assert(self.state_sq() == cur.state_sq());
                        assert(self.live(s) == cur.live(s));
                        if s == idx as int {
                            assert(!cur.live(s));
                        }
                    }
                }
                assert forall|s: int|
                    #![trigger self.accepting(s)]
                    #![trigger old(self).accepting(s)]
                    self.accepting(s) == (old(self).accepting(s) && !listed(sub1, s)) by {
                    assert(cur.accepting(s) == (old(self).accepting(s) && !listed(sub0, s)));
                    if cur.live(idx as int) {
                        assert(self.state_sq() == cur.state_sq().update(idx as int, None));
                        assert(self.accepting(s) == (cur.accepting(s) && s != idx as int));
                    } else {
                        assert(self.state_sq() == cur.state_sq());
                        assert(self.accepting(s) == cur.accepting(s));
                        if s == idx as int {
                            assert(!cur.live(s));
                            assert(!cur.accepting(s));
                        }
                    }
                }
                assert forall|s: int, x: T, d: int|
                    #![trigger self.has_edge(s, x, d)]
                    #![trigger old(self).has_edge(s, x, d)]
                    self.has_edge(s, x, d) == (old(self).has_edge(s, x, d) && !listed(sub1, s)
                        && !listed(sub1, d)) by {
                    assert(cur.has_edge(s, x, d) == (old(self).has_edge(s, x, d) && !listed(
                        sub0,
                        s,
                    ) && !listed(sub0, d)));
                    assert(self.has_edge(s, x, d) == (cur.has_edge(s, x, d) && !(cur.live(
                        idx as int,
                    ) && (s == idx as int || d == idx as int))));
                    if !cur.live(idx as int) {
                        if cur.has_edge(s, x, d) && (s == idx as int || d == idx as int) {
                            assert(cur.live(s) && cur.live(d));
                        }
                    }
                }
            }
        }
        proof {
            assert(rm@.subrange(0, n as int) =~= rm@);
        }
    }

    /// Remove every state that no run from the initial state reaches.
    /// What remains is reachable, and the language is unchanged.
    pub fn remove_unreachable_states(&mut self)
        requires
            old(self).wf(),
        ensures
            final(self).wf(),
            final(self).n_slots() == old(self).n_slots(),
            final(self).initial_id() == old(self).initial_id(),
            final(self).current_id() == old(self).current_id(),
            forall|s: int|
                #![trigger final(self).live(s)]
                #![trigger old(self).live(s)]
                final(self).live(s) <==> old(self).live(s) && old(self).reachable(s),
            forall|s: int|
                #![trigger final(self).accepting(s)]
                #![trigger old(self).accepting(s)]
                final(self).accepting(s) <==> old(self).accepting(s) && old(self).reachable(s),
            forall|s: int, x: T, d: int|
                #![trigger final(self).has_edge(s, x, d)]
                #![trigger old(self).has_edge(s, x, d)]
                final(self).has_edge(s, x, d) <==> (old(self).has_edge(s, x, d) && old(
                    self,
                ).reachable(s) && old(self).reachable(d)),
            forall|s: int| #[trigger] final(self).live(s) ==> final(self).reachable(s),
            forall|w: Seq<T>| #[trigger] final(self).accepts(w) == old(self).accepts(w),
            old(self).deterministic() ==> final(self).deterministic(),
    {
        let nn = self.state_slot_count();
        let rm = self.get_unreachable_states();
        let ghost pre = *self;
        self.remove_listed(&rm);
        proof {
            assert forall|s: int| #[trigger]
                listed(rm@, s) == (pre.live(s) && !pre.reachable(s)) by {
                if listed(rm@, s) {
                    let k = choose|k: int| 0 <= k < rm@.len() && rm@[k] as int == s;
                    assert(pre.live(rm@[k] as int) && !pre.reachable(rm@[k] as int));
                }
                if pre.live(s) && !pre.reachable(s) {
                    assert(0 <= s < pre.n_slots());
                    assert(pre.n_slots() == nn);
                    assert((s as usize) as int == s);
                    assert(pre.live((s as usize) as int) && !pre.reachable((s as usize) as int));
                    assert(rm@.contains(s as usize));
                    let k = choose|k: int| 0 <= k < rm@.len() && rm@[k] == s as usize;
                    assert(rm@[k] as int == s);
                }
            }
            assert forall|s: int|
                #![trigger self.live(s)]
                #![trigger pre.live(s)]
                self.live(s) == (pre.live(s) && pre.reachable(s)) by {}
            assert forall|s: int|
                #![trigger self.accepting(s)]
                #![trigger pre.accepting(s)]
                self.accepting(s) == (pre.accepting(s) && pre.reachable(s)) by {}
            assert forall|s: int, x: T, d: int|
                #![trigger self.has_edge(s, x, d)]
                #![trigger pre.has_edge(s, x, d)]
                self.has_edge(s, x, d) == (pre.has_edge(s, x, d) && pre.reachable(s)
                    && pre.reachable(d)) by {
                if pre.has_edge(s, x, d) {
                    assert(pre.live(s) && pre.live(d));
                }
            }
            assert forall|s: int| #[trigger] self.live(s) implies self.reachable(s) by {
                assert(pre.reachable(s));
                let w = choose|w: Seq<T>| pre.runs_to(pre.initial_id(), w, s);
                pre.lemma_reachable_initial();
                pre.lemma_prune_unreachable_run(*self, pre.initial_id(), w, s);
                assert(self.runs_to(self.initial_id(), w, s));
            }
            assert forall|w: Seq<T>| #[trigger] self.accepts(w) == pre.accepts(w) by {
                pre.lemma_reachable_initial();
                pre.lemma_prune_unreachable_accepts(*self, pre.initial_id(), w);
            }
            if pre.deterministic() {
                assert forall|s: int, x: T| !(#[trigger] self.nondet_at(s, x)) by {
                    if self.nondet_at(s, x) {
                        let (d1, d2) = choose|d1: int, d2: int|
                            d1 != d2 && #[trigger] self.has_edge(s, x, d1)
                                && #[trigger] self.has_edge(s, x, d2);
                        assert(pre.has_edge(s, x, d1) && pre.has_edge(s, x, d2));
                        assert(pre.nondet_at(s, x));
                    }
                }
            }
        }
    }

    /// Remove every dead state: one from which no run reaches an
    /// accepting state. What remains is productive, and the language is
    /// unchanged.
    pub fn remove_dead_states(&mut self)
        requires
            old(self).wf(),
        ensures
            final(self).wf(),
            final(self).n_slots() == old(self).n_slots(),
            final(self).initial_id() == old(self).initial_id(),
            final(self).current_id() == old(self).current_id(),
            forall|s: int|
                #![trigger final(self).live(s)]
                #![trigger old(self).live(s)]
                final(self).live(s) <==> old(self).live(s) && old(self).productive(s),
            forall|s: int|
                #![trigger final(self).accepting(s)]
                #![trigger old(self).accepting(s)]
                final(self).accepting(s) <==> old(self).accepting(s) && old(self).productive(s),
            forall|s: int, x: T, d: int|
                #![trigger final(self).has_edge(s, x, d)]
                #![trigger old(self).has_edge(s, x, d)]
                final(self).has_edge(s, x, d) <==> (old(self).has_edge(s, x, d) && old(
                    self,
                ).productive(s) && old(self).productive(d)),
            forall|s: int| #[trigger] final(self).live(s) ==> final(self).productive(s),
            forall|w: Seq<T>| #[trigger] final(self).accepts(w) == old(self).accepts(w),
            old(self).deterministic() ==> final(self).deterministic(),
    {
        let nn = self.state_slot_count();
        let rm = self.get_dead_states();
        let ghost pre = *self;
        self.remove_listed(&rm);
        proof {
            assert forall|s: int| #[trigger]
                listed(rm@, s) == (pre.live(s) && !pre.productive(s)) by {
                if listed(rm@, s) {
                    let k = choose|k: int| 0 <= k < rm@.len() && rm@[k] as int == s;
                    assert(pre.live(rm@[k] as int) && !pre.productive(rm@[k] as int));
                }
                if pre.live(s) && !pre.productive(s) {
                    assert(0 <= s < pre.n_slots());
                    assert(pre.n_slots() == nn);
                    assert((s as usize) as int == s);
                    assert(pre.live((s as usize) as int) && !pre.productive((s as usize) as int));
                    assert(rm@.contains(s as usize));
                    let k = choose|k: int| 0 <= k < rm@.len() && rm@[k] == s as usize;
                    assert(rm@[k] as int == s);
                }
            }
            assert forall|s: int|
                #![trigger self.live(s)]
                #![trigger pre.live(s)]
                self.live(s) == (pre.live(s) && pre.productive(s)) by {}
            assert forall|s: int|
                #![trigger self.accepting(s)]
                #![trigger pre.accepting(s)]
                self.accepting(s) == (pre.accepting(s) && pre.productive(s)) by {}
            assert forall|s: int, x: T, d: int|
                #![trigger self.has_edge(s, x, d)]
                #![trigger pre.has_edge(s, x, d)]
                self.has_edge(s, x, d) == (pre.has_edge(s, x, d) && pre.productive(s)
                    && pre.productive(d)) by {
                if pre.has_edge(s, x, d) {
                    assert(pre.live(s) && pre.live(d));
                }
            }
            assert forall|s: int| #[trigger] self.live(s) implies self.productive(s) by {
                assert(pre.productive(s));
                let (w, t) = choose|w: Seq<T>, t: int|
                    #[trigger] pre.runs_to(s, w, t) && pre.accepting(t);
                pre.lemma_prune_dead_run(*self, s, w, t);
                assert(pre.productive(t)) by {
                    assert(pre.runs_to(t, Seq::<T>::empty(), t) && pre.accepting(t));
                }
                assert(self.accepting(t));
                assert(self.runs_to(s, w, t) && self.accepting(t));
            }
            assert forall|w: Seq<T>| #[trigger] self.accepts(w) == pre.accepts(w) by {
                pre.lemma_prune_dead_accepts(*self, pre.initial_id(), w);
            }
            if pre.deterministic() {
                assert forall|s: int, x: T| !(#[trigger] self.nondet_at(s, x)) by {
                    if self.nondet_at(s, x) {
                        let (d1, d2) = choose|d1: int, d2: int|
                            d1 != d2 && #[trigger] self.has_edge(s, x, d1)
                                && #[trigger] self.has_edge(s, x, d2);
                        assert(pre.has_edge(s, x, d1) && pre.has_edge(s, x, d2));
                        assert(pre.nondet_at(s, x));
                    }
                }
            }
        }
    }

    /// Remove the unreachable states, then the dead ones. The language
    /// is unchanged, what remains is productive, and a deterministic
    /// automaton stays deterministic.
    pub fn minimize(&mut self)
        requires
            old(self).wf(),
        ensures
            final(self).wf(),
            final(self).n_slots() == old(self).n_slots(),
            final(self).initial_id() == old(self).initial_id(),
            final(self).current_id() == old(self).current_id(),
            forall|w: Seq<T>| #[trigger] final(self).accepts(w) == old(self).accepts(w),
            forall|s: int| #[trigger] final(self).live(s) ==> final(self).productive(s),
            old(self).deterministic() ==> final(self).deterministic(),
    {
        self.remove_unreachable_states();
        self.remove_dead_states();
    }
}

} // verus!
