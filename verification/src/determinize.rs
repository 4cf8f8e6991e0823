//! Subset construction: rewriting the automaton in place until no state
//! reads a symbol non-deterministically.

use vstd::prelude::*;

verus! {

use vstd::arithmetic::power2::pow2;
use vstd::arithmetic::power2::lemma_pow2_pos;
use vstd::arithmetic::power2::lemma_pow2_adds;
use vstd::arithmetic::power2::lemma_pow2_strictly_increases;
use vstd::set_lib::set_int_range;
use vstd::set_lib::lemma_int_range;
use vstd::set_lib::lemma_len_subset;
use crate::dfa::Dfa;
use crate::dfa::Transitable;
use crate::dfa::Transition;

/// The ids in `s` are in strictly increasing order.
pub open spec fn strictly_sorted(s: Seq<usize>) -> bool {
    forall|i: int, j: int| 0 <= i < j < s.len() ==> #[trigger] s[i] < #[trigger] s[j]
}

/// Every id in `s` is below `b`.
pub open spec fn ids_below(s: Seq<usize>, b: int) -> bool {
    forall|i: int| 0 <= i < s.len() ==> (#[trigger] s[i]) < b
}

/// The characteristic number of a sorted id set: the sum of one bit per
/// member. Distinct sets get distinct numbers below `pow2` of the bound.
spec fn subset_code(s: Seq<usize>) -> nat
    decreases s.len(),
{
    if s.len() == 0 {
        0
    } else {
        subset_code(s.drop_last()) + pow2(s.last() as nat)
    }
}

proof fn lemma_code_bound(s: Seq<usize>, b: nat)
    requires
        strictly_sorted(s),
        ids_below(s, b as int),
    ensures
        subset_code(s) < pow2(b),
    decreases s.len(),
{
    if s.len() == 0 {
        lemma_pow2_pos(b);
    } else {
        let pre = s.drop_last();
        let l = s.last() as nat;
        assert(strictly_sorted(pre) && ids_below(pre, l as int)) by {
            assert forall|i: int| 0 <= i < pre.len() implies (#[trigger] pre[i]) < l by {
                assert(s[i] < s[s.len() - 1]);
            }
        }
        lemma_code_bound(pre, l);
        lemma_pow2_adds(l, 1);
        assert(pow2(1) == 2) by {
            vstd::arithmetic::power2::lemma2_to64();
        }
        if l + 1 < b {
            lemma_pow2_strictly_increases(l + 1, b);
        }
        assert(subset_code(s) == subset_code(pre) + pow2(l));
        assert(subset_code(s) < pow2(l + 1));
        assert(pow2(l + 1) <= pow2(b));
    }
}

proof fn lemma_code_positive(s: Seq<usize>)
    requires
        s.len() > 0,
    ensures
        subset_code(s) >= pow2(s.last() as nat),
{
}

proof fn lemma_code_inj(s1: Seq<usize>, s2: Seq<usize>)
    requires
        strictly_sorted(s1),
        strictly_sorted(s2),
        s1 != s2,
    ensures
        subset_code(s1) != subset_code(s2),
    decreases s1.len() + s2.len(),
{
    if s1.len() == 0 {
        assert(s2.len() > 0) by {
            if s2.len() == 0 {
                assert(s1 =~= s2);
            }
        }
        lemma_code_positive(s2);
        lemma_pow2_pos(s2.last() as nat);
    } else if s2.len() == 0 {
        lemma_code_positive(s1);
        lemma_pow2_pos(s1.last() as nat);
    } else {
        let l1 = s1.last();
        let l2 = s2.last();
        if l1 == l2 {
            let p1 = s1.drop_last();
            let p2 = s2.drop_last();
            assert(p1 != p2) by {
                if p1 == p2 {
                    assert(s1 =~= p1.push(s1.last()));
                    assert(s2 =~= p2.push(s2.last()));
                }
            }
            assert(strictly_sorted(p1) && strictly_sorted(p2));
            lemma_code_inj(p1, p2);
        } else {
            let lo = if l1 < l2 {
                s1
            } else {
                s2
            };
            let hi = if l1 < l2 {
                s2
            } else {
                s1
            };
            let ll = lo.last() as nat;
            assert(ids_below(lo, ll as int + 1)) by {
                assert forall|i: int| 0 <= i < lo.len() implies (#[trigger] lo[i]) < ll + 1 by {
                    if i < lo.len() - 1 {
                        assert(lo[i] < lo[lo.len() - 1]);
                    }
                }
            }
            lemma_code_bound(lo, ll + 1);
            lemma_code_positive(hi);
            assert(ll + 1 <= hi.last() as nat);
            if ll + 1 < hi.last() as nat {
                lemma_pow2_strictly_increases(ll + 1, hi.last() as nat);
            }
            assert(subset_code(lo) < pow2(ll + 1));
            assert(subset_code(hi) >= pow2(hi.last() as nat));
        }
    }
}

/// At most `pow2(b)` pairwise distinct sorted id sets below `b` exist.
proof fn lemma_subset_count(subs: Seq<Seq<usize>>, b: nat)
    requires
        forall|i: int|
            0 <= i < subs.len() ==> strictly_sorted(#[trigger] subs[i]) && ids_below(
                subs[i],
                b as int,
            ),
        forall|i: int, j: int|
            0 <= i < subs.len() && 0 <= j < subs.len() && i != j ==> #[trigger] subs[i]
                != #[trigger] subs[j],
    ensures
        subs.len() <= pow2(b),
{
    let codes = subs.map_values(|q: Seq<usize>| subset_code(q) as int);
    assert(codes.no_duplicates()) by {
        assert forall|i: int, j: int|
            0 <= i < codes.len() && 0 <= j < codes.len() && i != j implies codes[i]
            != codes[j] by {
            lemma_code_inj(subs[i], subs[j]);
        }
    }
    codes.unique_seq_to_set();
    assert(codes.to_set().subset_of(set_int_range(0, pow2(b) as int))) by {
        assert forall|x: int| codes.to_set().contains(x) implies set_int_range(
            0,
            pow2(b) as int,
        ).contains(x) by {
            assert(codes.contains(x));
            let i = choose|i: int| 0 <= i < codes.len() && codes[i] == x;
            lemma_code_bound(subs[i], b);
        }
    }
    lemma_int_range(0, pow2(b) as int);
    lemma_len_subset(codes.to_set(), set_int_range(0, pow2(b) as int));
}

/// Two id vectors hold the same sequence.
fn ids_equal(a: &Vec<usize>, b: &Vec<usize>) -> (r: bool)
    ensures
        r == (a@ == b@),
{
    if a.len() != b.len() {
        return false;
    }
    let n = a.len();
    for k in 0..n
        invariant
            n == a@.len(),
            n == b@.len(),
            forall|i: int| 0 <= i < k ==> a@[i] == b@[i],
    {
        if a[k] != b[k] {
            return false;
        }
    }
    proof {
        assert(a@ =~= b@);
    }
    true
}

/// Append `d` unless it is already present.
fn push_unique(un: &mut Vec<usize>, d: usize)
    requires
        forall|i: int, j: int|
            0 <= i < old(un)@.len() && 0 <= j < old(un)@.len() && i != j ==> #[trigger] old(
                un,
            )@[i] != #[trigger] old(un)@[j],
    ensures
        forall|i: int, j: int|
            0 <= i < final(un)@.len() && 0 <= j < final(un)@.len() && i != j ==> #[trigger] final(un)@[i] != #[trigger] final(un)@[j],
        forall|x: usize| (#[trigger] final(un)@.contains(x)) <==> (old(un)@.contains(x) || x == d),
        forall|i: int| 0 <= i < final(un)@.len() ==> (old(un)@.contains(#[trigger] final(un)@[i])
            || final(un)@[i] == d),
{
    let n = un.len();
    let mut found = false;
    for k in 0..n
        invariant
            n == un@.len(),
            found == (exists|i: int| 0 <= i < k && #[trigger] un@[i] == d),
    {
        if un[k] == d {
            found = true;
        }
    }
    proof {
        assert(found == un@.contains(d));
    }
    if !found {
        let ghost u0 = un@;
        un.push(d);
        proof {
            assert forall|x: usize| final(un)@.contains(x) <==> (u0.contains(x) || x == d) by {
                if un@.contains(x) {
                    let i = choose|i: int| 0 <= i < un@.len() && un@[i] == x;
                    if i < u0.len() {
                        assert(u0[i] == x);
                    }
                }
                if u0.contains(x) {
                    let i = choose|i: int| 0 <= i < u0.len() && u0[i] == x;
                    assert(un@[i] == x);
                }
                if x == d {
                    assert(un@[un@.len() - 1] == x);
                }
            }
            assert forall|i: int, j: int|
                0 <= i < un@.len() && 0 <= j < un@.len() && i != j implies #[trigger] un@[i]
                != #[trigger] un@[j] by {
                if i == un@.len() - 1 || j == un@.len() - 1 {
                    let o = if i == un@.len() - 1 {
                        j
                    } else {
                        i
                    };
                    if un@[o] == d {
                        assert(u0[o] == d);
                        assert(u0.contains(d));
                    }
                } else {
                    assert(u0[i] != u0[j]);
                }
            }
        }
    } else {
        proof {
            assert forall|x: usize| un@.contains(x) <==> (un@.contains(x) || x == d) by {
                if x == d {
                }
            }
        }
    }
}

/// The same ids in strictly increasing order.
fn sort_ids(v: &Vec<usize>) -> (r: Vec<usize>)
    requires
        forall|i: int, j: int|
            0 <= i < v@.len() && 0 <= j < v@.len() && i != j ==> #[trigger] v@[i] != #[trigger] v@[j],
    ensures
        strictly_sorted(r@),
        forall|x: usize| r@.contains(x) <==> v@.contains(x),
{
    let mut r: Vec<usize> = Vec::new();
    let n = v.len();
    for k in 0..n
        invariant
            n == v@.len(),
            forall|i: int, j: int|
                0 <= i < v@.len() && 0 <= j < v@.len() && i != j ==> #[trigger] v@[i]
                    != #[trigger] v@[j],
            strictly_sorted(r@),
            forall|x: usize| r@.contains(x) <==> v@.subrange(0, k as int).contains(x),
    {
        let x = v[k];
        proof {
            assert(!r@.contains(x)) by {
                if r@.contains(x) {
                    assert(v@.subrange(0, k as int).contains(x));
                    let i = choose|i: int|
                        0 <= i < k && #[trigger] v@.subrange(0, k as int)[i] == x;
                    assert(v@[i] == v@[k as int]);
                }
            }
        }
        let mut pos: usize = 0;
        while pos < r.len() && r[pos] < x
            invariant
                pos <= r@.len(),
                forall|i: int| 0 <= i < pos ==> (#[trigger] r@[i]) < x,
            decreases r@.len() - pos,
        {
            pos = pos + 1;
        }
        let ghost r0 = r@;
        r.insert(pos, x);
        proof {
            assert(r@ == r0.insert(pos as int, x));
            assert forall|i: int, j: int|
                0 <= i < j < r@.len() implies #[trigger] r@[i] < #[trigger] r@[j] by {
                let gi = if i < pos as int {
                    r0[i]
                } else if i == pos as int {
                    x
                } else {
                    r0[i - 1]
                };
                assert(r@[i] == gi);
                let gj = if j < pos as int {
                    r0[j]
                } else if j == pos as int {
                    x
                } else {
                    r0[j - 1]
                };
                assert(r@[j] == gj);
                if i < pos as int && j == pos as int {
                    assert(r0[i] < x);
                } else if i == pos as int && j > pos as int {
                    assert(!(r0[j - 1] < x));
                    assert(r0[j - 1] != x) by {
                        if r0[j - 1] == x {
                            assert(r0.contains(x));
                        }
                    }
                } else if i < pos as int && j > pos as int {
                    assert(!(r0[j - 1] < x));
                    assert(r0[i] < x);
                }
            }
            assert forall|y: usize|
                #![trigger r@.contains(y)]
                #![trigger v@.subrange(0, k + 1).contains(y)]
                r@.contains(y) <==> v@.subrange(0, k + 1).contains(y) by {
                assert(v@.subrange(0, k + 1) =~= v@.subrange(0, k as int).push(v@[k as int]));
                if r@.contains(y) {
                    let i = choose|i: int| 0 <= i < r@.len() && r@[i] == y;
                    if i == pos as int {
                        assert(v@.subrange(0, k + 1)[k as int] == x);
                    } else {
                        let i0 = if i < pos as int {
                            i
                        } else {
                            i - 1
                        };
                        assert(r0[i0] == y);
                        assert(r0.contains(y));
                        assert(v@.subrange(0, k as int).contains(y));
                        let i2 = choose|i2: int|
                            0 <= i2 < k && #[trigger] v@.subrange(0, k as int)[i2] == y;
                        assert(v@.subrange(0, k + 1)[i2] == y);
                    }
                }
                if v@.subrange(0, k + 1).contains(y) {
                    let i = choose|i: int|
                        0 <= i < k + 1 && #[trigger] v@.subrange(0, k + 1)[i] == y;
                    if i == k as int {
                        assert(y == x);
                        assert(r@[pos as int] == x);
                    } else {
                        assert(v@.subrange(0, k as int)[i] == y);
                        assert(r0.contains(y));
                        let i2 = choose|i2: int| 0 <= i2 < r0.len() && r0[i2] == y;
                        if i2 < pos as int {
                            assert(r@[i2] == y);
                        } else {
                            assert(r@[i2 + 1] == y);
                        }
                    }
                }
            }
        }
    }
    proof {
        assert(v@.subrange(0, n as int) =~= v@);
    }
    r
}

/// Original state `u` is among what state `d` stands for: `d` itself
/// below `n0`, a member of its recorded id set for a synthesized state.
pub open spec fn denotes(smv: Seq<Vec<usize>>, n0: int, d: int, u: int) -> bool {
    if 0 <= d < n0 {
        u == d
    } else if n0 <= d < n0 + smv.len() {
        exists|j: int| 0 <= j < smv[d - n0]@.len() && (#[trigger] smv[d - n0]@[j]) as int == u
    } else {
        false
    }
}

/// `u` is one of the ids listed in `v`.
pub open spec fn lists(v: Seq<usize>, u: int) -> bool {
    exists|j: int| 0 <= j < v.len() && (#[trigger] v[j]) as int == u
}

/// Some id in `ds` stands for `u`.
spec fn ds_denotes(smv: Seq<Vec<usize>>, n0: int, ds: Seq<usize>, u: int) -> bool {
    exists|i: int| 0 <= i < ds.len() && denotes(smv, n0, (#[trigger] ds[i]) as int, u)
}

/// Some edge of `a` from `s` on `x` leads to a state standing for `u`.
pub open spec fn reaches<T: Transitable>(
    a: Dfa<T>,
    smv: Seq<Vec<usize>>,
    n0: int,
    s: int,
    x: T,
    u: int,
) -> bool {
    exists|d: int| #[trigger] a.has_edge(s, x, d) && denotes(smv, n0, d, u)
}

/// Some original state that `s` stands for has an edge to `u` in `o`.
pub open spec fn orig_steps<T: Transitable>(
    o: Dfa<T>,
    smv: Seq<Vec<usize>>,
    n0: int,
    s: int,
    x: T,
    u: int,
) -> bool {
    exists|t: int| denotes(smv, n0, s, t) && #[trigger] o.has_edge(t, x, u)
}

/// At `(s, x)`, the states reached through what edges stand for are
/// exactly the original destinations of what `s` stands for.
pub open spec fn sim_at<T: Transitable>(
    o: Dfa<T>,
    a: Dfa<T>,
    smv: Seq<Vec<usize>>,
    n0: int,
    s: int,
    x: T,
) -> bool {
    forall|u: int|
        #![trigger reaches(a, smv, n0, s, x, u)]
        #![trigger orig_steps(o, smv, n0, s, x, u)]
        reaches(a, smv, n0, s, x, u) == orig_steps(o, smv, n0, s, x, u)
}

/// What a state stands for is unchanged when the record grows by new
/// entries only.
proof fn lemma_denotes_grow(sm0: Seq<Vec<usize>>, sm1: Seq<Vec<usize>>, n0: int, d: int, u: int)
    requires
        sm1.len() >= sm0.len(),
        forall|i: int| 0 <= i < sm0.len() ==> sm1[i] == sm0[i],
        0 <= d < n0 + sm0.len(),
    ensures
        denotes(sm1, n0, d, u) == denotes(sm0, n0, d, u),
{
    if n0 <= d {
        assert(sm1[d - n0] == sm0[d - n0]);
        if denotes(sm1, n0, d, u) {
            let j = choose|j: int|
                0 <= j < sm1[d - n0]@.len() && (#[trigger] sm1[d - n0]@[j]) as int == u;
            assert(sm0[d - n0]@[j] as int == u);
        }
        if denotes(sm0, n0, d, u) {
            let j = choose|j: int|
                0 <= j < sm0[d - n0]@.len() && (#[trigger] sm0[d - n0]@[j]) as int == u;
            assert(sm1[d - n0]@[j] as int == u);
        }
    }
}

/// What a state's edges reach is unchanged when the record grows, as
/// long as every edge target is already recorded.
proof fn lemma_reaches_grow<T: Transitable>(
    a: Dfa<T>,
    sm0: Seq<Vec<usize>>,
    sm1: Seq<Vec<usize>>,
    n0: int,
    s: int,
    x: T,
    u: int,
)
    requires
        a.wf(),
        a.n_slots() <= n0 + sm0.len(),
        0 <= n0,
        sm1.len() >= sm0.len(),
        forall|i: int| 0 <= i < sm0.len() ==> sm1[i] == sm0[i],
    ensures
        reaches(a, sm1, n0, s, x, u) == reaches(a, sm0, n0, s, x, u),
{
    if reaches(a, sm1, n0, s, x, u) {
        let d = choose|d: int| #[trigger] a.has_edge(s, x, d) && denotes(sm1, n0, d, u);
        assert(a.live(d));
        lemma_denotes_grow(sm0, sm1, n0, d, u);
    }
    if reaches(a, sm0, n0, s, x, u) {
        let d = choose|d: int| #[trigger] a.has_edge(s, x, d) && denotes(sm0, n0, d, u);
        assert(a.live(d));
        lemma_denotes_grow(sm0, sm1, n0, d, u);
    }
}

/// For an original state, the original steps are its own edges, with
/// any record.
proof fn lemma_orig_steps_plain<T: Transitable>(
    o: Dfa<T>,
    smv: Seq<Vec<usize>>,
    n0: int,
    s: int,
    x: T,
    u: int,
)
    requires
        0 <= s < n0,
    ensures
        orig_steps(o, smv, n0, s, x, u) == o.has_edge(s, x, u),
{
    if orig_steps(o, smv, n0, s, x, u) {
        let t = choose|t: int| denotes(smv, n0, s, t) && #[trigger] o.has_edge(t, x, u);
        assert(t == s);
    }
    if o.has_edge(s, x, u) {
        assert(denotes(smv, n0, s, s) && o.has_edge(s, x, u));
    }
}

/// The original steps of a recorded state are unchanged when the record
/// grows.
proof fn lemma_orig_steps_grow<T: Transitable>(
    o: Dfa<T>,
    sm0: Seq<Vec<usize>>,
    sm1: Seq<Vec<usize>>,
    n0: int,
    s: int,
    x: T,
    u: int,
)
    requires
        0 <= n0,
        0 <= s < n0 + sm0.len(),
        sm1.len() >= sm0.len(),
        forall|i: int| 0 <= i < sm0.len() ==> sm1[i] == sm0[i],
    ensures
        orig_steps(o, sm1, n0, s, x, u) == orig_steps(o, sm0, n0, s, x, u),
{
    if orig_steps(o, sm1, n0, s, x, u) {
        let t = choose|t: int| denotes(sm1, n0, s, t) && #[trigger] o.has_edge(t, x, u);
        lemma_denotes_grow(sm0, sm1, n0, s, t);
        assert(denotes(sm0, n0, s, t) && o.has_edge(t, x, u));
    }
    if orig_steps(o, sm0, n0, s, x, u) {
        let t = choose|t: int| denotes(sm0, n0, s, t) && #[trigger] o.has_edge(t, x, u);
        lemma_denotes_grow(sm0, sm1, n0, s, t);
        assert(denotes(sm1, n0, s, t) && o.has_edge(t, x, u));
    }
}

/// A state's simulation property carries over to an automaton with the
/// same edges at that state and symbol, under a grown record.
proof fn lemma_sim_transfer<T: Transitable>(
    o: Dfa<T>,
    a: Dfa<T>,
    b: Dfa<T>,
    sm0: Seq<Vec<usize>>,
    sm1: Seq<Vec<usize>>,
    n0: int,
    s2: int,
    x2: T,
)
    requires
        sim_at(o, a, sm0, n0, s2, x2),
        a.wf(),
        a.n_slots() <= n0 + sm0.len(),
        0 <= n0,
        0 <= s2 < n0 + sm0.len(),
        sm1.len() >= sm0.len(),
        forall|i: int| 0 <= i < sm0.len() ==> sm1[i] == sm0[i],
        forall|dd: int|
            #![trigger a.has_edge(s2, x2, dd)]
            #![trigger b.has_edge(s2, x2, dd)]
            a.has_edge(s2, x2, dd) == b.has_edge(s2, x2, dd),
    ensures
        sim_at(o, b, sm1, n0, s2, x2),
{
    assert forall|u: int|
        #![trigger reaches(b, sm1, n0, s2, x2, u)]
        #![trigger orig_steps(o, sm1, n0, s2, x2, u)]
        reaches(b, sm1, n0, s2, x2, u) == orig_steps(o, sm1, n0, s2, x2, u) by {
        assert(reaches(b, sm1, n0, s2, x2, u) == reaches(a, sm1, n0, s2, x2, u)) by {
            if reaches(b, sm1, n0, s2, x2, u) {
                let d = choose|d: int| #[trigger] b.has_edge(s2, x2, d) && denotes(sm1, n0, d, u);
                assert(a.has_edge(s2, x2, d) && denotes(sm1, n0, d, u));
            }
            if reaches(a, sm1, n0, s2, x2, u) {
                let d = choose|d: int| #[trigger] a.has_edge(s2, x2, d) && denotes(sm1, n0, d, u);
                assert(b.has_edge(s2, x2, d) && denotes(sm1, n0, d, u));
            }
        }
        lemma_reaches_grow(a, sm0, sm1, n0, s2, x2, u);
        lemma_orig_steps_grow(o, sm0, sm1, n0, s2, x2, u);
    }
}

/// The union of the members' destinations stands for exactly the
/// original steps of the members.
proof fn lemma_union_orig<T: Transitable>(
    o: Dfa<T>,
    a: Dfa<T>,
    smv: Seq<Vec<usize>>,
    n0: int,
    members: Seq<usize>,
    un: Seq<usize>,
    x: T,
    u: int,
)
    requires
        a.wf(),
        0 <= n0,
        forall|d2: usize|
            #[trigger] un.contains(d2) <==> (exists|t2: int|
                0 <= t2 < members.len() && a.has_edge(
                    #[trigger] members[t2] as int,
                    x,
                    d2 as int,
                )),
        forall|t2: int| 0 <= t2 < members.len() ==> (#[trigger] members[t2] as int) < n0,
        forall|t2: int|
            0 <= t2 < members.len() ==> #[trigger] sim_at(o, a, smv, n0, members[t2] as int, x),
    ensures
        ds_denotes(smv, n0, un, u) == (exists|t2: int|
            0 <= t2 < members.len() && o.has_edge(#[trigger] members[t2] as int, x, u)),
{
    if ds_denotes(smv, n0, un, u) {
        let i4 = choose|i4: int|
            0 <= i4 < un.len() && denotes(smv, n0, (#[trigger] un[i4]) as int, u);
        assert(un.contains(un[i4]));
        let t2 = choose|t2: int|
            0 <= t2 < members.len() && a.has_edge(#[trigger] members[t2] as int, x, un[i4] as int);
        assert(reaches(a, smv, n0, members[t2] as int, x, u)) by {
            assert(a.has_edge(members[t2] as int, x, un[i4] as int) && denotes(
                smv,
                n0,
                un[i4] as int,
                u,
            ));
        }
        assert(sim_at(o, a, smv, n0, members[t2] as int, x));
        assert(orig_steps(o, smv, n0, members[t2] as int, x, u));
        lemma_orig_steps_plain(o, smv, n0, members[t2] as int, x, u);
        assert(o.has_edge(members[t2] as int, x, u));
    }
    if exists|t2: int|
        0 <= t2 < members.len() && o.has_edge(#[trigger] members[t2] as int, x, u) {
        let t2 = choose|t2: int|
            0 <= t2 < members.len() && o.has_edge(#[trigger] members[t2] as int, x, u);
        lemma_orig_steps_plain(o, smv, n0, members[t2] as int, x, u);
        assert(orig_steps(o, smv, n0, members[t2] as int, x, u));
        assert(sim_at(o, a, smv, n0, members[t2] as int, x));
        assert(reaches(a, smv, n0, members[t2] as int, x, u));
        let d = choose|d: int|
            #[trigger] a.has_edge(members[t2] as int, x, d) && denotes(smv, n0, d, u);
        assert(a.live(d));
        assert(un.contains(d as usize));
        let i4 = choose|i4: int| 0 <= i4 < un.len() && un[i4] == d as usize;
        assert(denotes(smv, n0, un[i4] as int, u));
        assert(ds_denotes(smv, n0, un, u));
    }
}

/// The original steps of a synthesized state are its members' edges.
proof fn lemma_members_steps<T: Transitable>(
    o: Dfa<T>,
    smv: Seq<Vec<usize>>,
    n0: int,
    ns: int,
    x: T,
    u: int,
)
    requires
        n0 <= ns < n0 + smv.len(),
    ensures
        orig_steps(o, smv, n0, ns, x, u) == (exists|t2: int|
            0 <= t2 < smv[ns - n0]@.len() && o.has_edge(
                (#[trigger] smv[ns - n0]@[t2]) as int,
                x,
                u,
            )),
{
    if orig_steps(o, smv, n0, ns, x, u) {
        let t = choose|t: int| denotes(smv, n0, ns, t) && #[trigger] o.has_edge(t, x, u);
        let j = choose|j: int|
            0 <= j < smv[ns - n0]@.len() && (#[trigger] smv[ns - n0]@[j]) as int == t;
        assert(o.has_edge(smv[ns - n0]@[j] as int, x, u));
    }
    if exists|t2: int|
        0 <= t2 < smv[ns - n0]@.len() && o.has_edge((#[trigger] smv[ns - n0]@[t2]) as int, x, u) {
        let t2 = choose|t2: int|
            0 <= t2 < smv[ns - n0]@.len() && o.has_edge(
                (#[trigger] smv[ns - n0]@[t2]) as int,
                x,
                u,
            );
        assert(denotes(smv, n0, ns, smv[ns - n0]@[t2] as int));
        assert(denotes(smv, n0, ns, smv[ns - n0]@[t2] as int) && o.has_edge(
            smv[ns - n0]@[t2] as int,
            x,
            u,
        ));
    }
}

/// Some state `s` stands for accepts in `o`.
spec fn den_accepting<T: Transitable>(o: Dfa<T>, smv: Seq<Vec<usize>>, n0: int, s: int) -> bool {
    exists|t: int| denotes(smv, n0, s, t) && #[trigger] o.accepting(t)
}

/// `o` accepts `w` from some state `s` stands for.
spec fn den_accepts<T: Transitable>(
    o: Dfa<T>,
    smv: Seq<Vec<usize>>,
    n0: int,
    s: int,
    w: Seq<T>,
) -> bool {
    exists|t: int| denotes(smv, n0, s, t) && #[trigger] o.accepts_from(t, w)
}

/// The simulation theorem: when every state's edges reach, through what
/// they stand for, exactly the original destinations of what the state
/// stands for, and flags agree likewise, the automaton accepts from a
/// state exactly what the original accepts from the states it stands
/// for.
proof fn lemma_sim_accepts<T: Transitable>(
    o: Dfa<T>,
    a: Dfa<T>,
    smv: Seq<Vec<usize>>,
    n0: int,
    s: int,
    w: Seq<T>,
)
    requires
        forall|s2: int, x: T| #[trigger] sim_at(o, a, smv, n0, s2, x),
        forall|s2: int| #[trigger] a.accepting(s2) == den_accepting(o, smv, n0, s2),
    ensures
        a.accepts_from(s, w) == den_accepts(o, smv, n0, s, w),
    decreases w.len(),
{
    if w.len() == 0 {
        if a.accepts_from(s, w) {
            let t = choose|t: int| denotes(smv, n0, s, t) && #[trigger] o.accepting(t);
            assert(o.accepts_from(t, w));
            assert(denotes(smv, n0, s, t) && o.accepts_from(t, w));
        }
        if den_accepts(o, smv, n0, s, w) {
            let t = choose|t: int| denotes(smv, n0, s, t) && #[trigger] o.accepts_from(t, w);
            assert(o.accepting(t));
            assert(den_accepting(o, smv, n0, s));
        }
    } else {
        if a.accepts_from(s, w) {
            let d = choose|d: int|
                #[trigger] a.has_edge(s, w[0], d) && a.accepts_from(d, w.skip(1));
            lemma_sim_accepts(o, a, smv, n0, d, w.skip(1));
            let u = choose|u: int|
                denotes(smv, n0, d, u) && #[trigger] o.accepts_from(u, w.skip(1));
            assert(reaches(a, smv, n0, s, w[0], u)) by {
                assert(a.has_edge(s, w[0], d) && denotes(smv, n0, d, u));
            }
            assert(sim_at(o, a, smv, n0, s, w[0]));
            assert(orig_steps(o, smv, n0, s, w[0], u));
            let t = choose|t: int| denotes(smv, n0, s, t) && #[trigger] o.has_edge(t, w[0], u);
            assert(o.accepts_from(t, w)) by {
                assert(o.has_edge(t, w[0], u) && o.accepts_from(u, w.skip(1)));
            }
            assert(denotes(smv, n0, s, t) && o.accepts_from(t, w));
        }
        if den_accepts(o, smv, n0, s, w) {
            let t = choose|t: int| denotes(smv, n0, s, t) && #[trigger] o.accepts_from(t, w);
            let u = choose|u: int|
                #[trigger] o.has_edge(t, w[0], u) && o.accepts_from(u, w.skip(1));
            assert(orig_steps(o, smv, n0, s, w[0], u)) by {
                assert(denotes(smv, n0, s, t) && o.has_edge(t, w[0], u));
            }
            assert(sim_at(o, a, smv, n0, s, w[0]));
            assert(reaches(a, smv, n0, s, w[0], u));
            let d = choose|d: int| #[trigger] a.has_edge(s, w[0], d) && denotes(smv, n0, d, u);
            lemma_sim_accepts(o, a, smv, n0, d, w.skip(1));
            assert(den_accepts(o, smv, n0, d, w.skip(1))) by {
                assert(denotes(smv, n0, d, u) && o.accepts_from(u, w.skip(1)));
            }
            assert(a.accepts_from(d, w.skip(1)));
            assert(a.has_edge(s, w[0], d) && a.accepts_from(d, w.skip(1)));
        }
    }
}

/// Some listed state accepts.
pub open spec fn any_accepting<T: Transitable>(a: Dfa<T>, ids: Seq<usize>) -> bool {
    exists|j: int| 0 <= j < ids.len() && a.accepting(#[trigger] ids[j] as int)
}

/// Some edge of `a` leads to state `d`.
spec fn edge_target<T: Transitable>(a: Dfa<T>, d: usize) -> bool {
    exists|s3: int, x3: T| a.has_edge(s3, x3, d as int)
}

/// `x` occurs in one of the recorded id sets.
spec fn member_of(sm: Seq<Vec<usize>>, x: usize) -> bool {
    exists|a: int, b: int| 0 <= a < sm.len() && 0 <= b < sm[a]@.len() && #[trigger] sm[a]@[b] == x
}

/// The ids in `v` are pairwise distinct.
pub open spec fn distinct_ids(v: Seq<usize>) -> bool {
    forall|i: int, j: int| 0 <= i < v.len() && 0 <= j < v.len() && i != j ==> #[trigger] v[i]
        != #[trigger] v[j]
}

/// Replace each id that stands for a recorded set by that set's members,
/// and drop duplicates: the result lists only ids below `n0`.
fn expand_ids(ds: &Vec<usize>, sm: &Vec<Vec<usize>>, n0: usize) -> (r: Vec<usize>)
    requires
        forall|i: int| 0 <= i < sm@.len() ==> ids_below((#[trigger] sm@[i])@, n0 as int),
        forall|i: int| 0 <= i < ds@.len() ==> (#[trigger] ds@[i]) < n0 + sm@.len(),
    ensures
        distinct_ids(r@),
        ids_below(r@, n0 as int),
        forall|i: int|
            0 <= i < r@.len() ==> (ds@.contains(#[trigger] r@[i]) || member_of(sm@, r@[i])),
        forall|u: int|
            #![trigger lists(r@, u)]
            #![trigger ds_denotes(sm@, n0 as int, ds@, u)]
            lists(r@, u) <==> ds_denotes(sm@, n0 as int, ds@, u),
{
    let mut un: Vec<usize> = Vec::new();
    let n = ds.len();
    for i in 0..n
        invariant
            n == ds@.len(),
            forall|i2: int| 0 <= i2 < sm@.len() ==> ids_below((#[trigger] sm@[i2])@, n0 as int),
            forall|i2: int| 0 <= i2 < ds@.len() ==> (#[trigger] ds@[i2]) < n0 + sm@.len(),
            distinct_ids(un@),
            ids_below(un@, n0 as int),
            forall|i2: int|
                0 <= i2 < un@.len() ==> (ds@.contains(#[trigger] un@[i2]) || member_of(
                    sm@,
                    un@[i2],
                )),
            forall|u: int|
                #![trigger lists(un@, u)]
                lists(un@, u) <==> ds_denotes(sm@, n0 as int, ds@.subrange(0, i as int), u),
    {
        let ghost dsub = ds@.subrange(0, i as int);
        let ghost dsub1 = ds@.subrange(0, i + 1);
        proof {
            assert(dsub1 =~= dsub.push(ds@[i as int]));
        }
        let d = ds[i];
        if d < n0 {
            let ghost u0 = un@;
            push_unique(&mut un, d);
            proof {
                assert forall|i2: int|
                    0 <= i2 < un@.len() implies (ds@.contains(#[trigger] un@[i2]) || member_of(
                    sm@,
                    un@[i2],
                )) by {
                    if u0.contains(un@[i2]) {
                        let i3 = choose|i3: int| 0 <= i3 < u0.len() && u0[i3] == un@[i2];
                    } else {
                        assert(un@[i2] == d);
                        assert(ds@[i as int] == d);
                        assert(ds@.contains(d));
                    }
                }
                assert forall|u: int|
                    #![trigger lists(un@, u)]
                    lists(un@, u) <==> ds_denotes(sm@, n0 as int, dsub1, u) by {
                    if lists(un@, u) {
                        let j3 = choose|j3: int|
                            0 <= j3 < un@.len() && (#[trigger] un@[j3]) as int == u;
                        if u0.contains(un@[j3]) {
                            let j4 = choose|j4: int| 0 <= j4 < u0.len() && u0[j4] == un@[j3];
                            assert(lists(u0, u));
                            let i3 = choose|i3: int|
                                0 <= i3 < dsub.len() && denotes(
                                    sm@,
                                    n0 as int,
                                    (#[trigger] dsub[i3]) as int,
                                    u,
                                );
                            assert(dsub1[i3] == dsub[i3]);
                            assert(ds_denotes(sm@, n0 as int, dsub1, u));
                        } else {
                            assert(un@[j3] == d);
                            assert(denotes(sm@, n0 as int, dsub1[i as int] as int, u));
                            assert(ds_denotes(sm@, n0 as int, dsub1, u));
                        }
                    }
                    if ds_denotes(sm@, n0 as int, dsub1, u) {
                        let i3 = choose|i3: int|
                            0 <= i3 < dsub1.len() && denotes(
                                sm@,
                                n0 as int,
                                (#[trigger] dsub1[i3]) as int,
                                u,
                            );
                        if i3 < dsub.len() {
                            assert(dsub[i3] == dsub1[i3]);
                            assert(ds_denotes(sm@, n0 as int, dsub, u));
                            assert(lists(u0, u));
                            let j4 = choose|j4: int|
                                0 <= j4 < u0.len() && (#[trigger] u0[j4]) as int == u;
                            assert(un@.contains(u0[j4]));
                            let j5 = choose|j5: int| 0 <= j5 < un@.len() && un@[j5] == u0[j4];
                            assert(lists(un@, u));
                        } else {
                            assert(dsub1[i3] == d);
                            assert(u == d as int);
                            assert(un@.contains(d));
                            let j5 = choose|j5: int| 0 <= j5 < un@.len() && un@[j5] == d;
                            assert(lists(un@, u));
                        }
                    }
                }
            }
        } else {
            let row = &sm[d - n0];
            let m = row.len();
            for j in 0..m
                invariant
                    m == row@.len(),
                    row@ == sm@[d - n0]@,
                    0 <= d - n0 < sm@.len(),
                    d == ds@[i as int],
                    i < n,
                    n == ds@.len(),
                    n0 <= d,
                    dsub == ds@.subrange(0, i as int),
                    dsub1 == ds@.subrange(0, i + 1),
                    dsub1 == dsub.push(ds@[i as int]),
                    forall|i2: int|
                        0 <= i2 < sm@.len() ==> ids_below((#[trigger] sm@[i2])@, n0 as int),
                    distinct_ids(un@),
                    ids_below(un@, n0 as int),
                    forall|i2: int|
                        0 <= i2 < un@.len() ==> (ds@.contains(#[trigger] un@[i2]) || member_of(
                            sm@,
                            un@[i2],
                        )),
                    forall|u: int|
                        #![trigger lists(un@, u)]
                        lists(un@, u) <==> (ds_denotes(sm@, n0 as int, dsub, u) || (exists|j2: int|
                            0 <= j2 < j && (#[trigger] row@[j2]) as int == u)),
            {
                let ghost u0 = un@;
                push_unique(&mut un, row[j]);
                proof {
                    assert forall|i2: int|
                        0 <= i2 < un@.len() implies (ds@.contains(#[trigger] un@[i2])
                        || member_of(sm@, un@[i2])) by {
                        if u0.contains(un@[i2]) {
                            let i3 = choose|i3: int| 0 <= i3 < u0.len() && u0[i3] == un@[i2];
                        } else {
                            assert(un@[i2] == row@[j as int]);
                            assert(sm@[d - n0]@[j as int] == un@[i2]);
                            assert(member_of(sm@, un@[i2]));
                        }
                    }
                    assert forall|u: int|
                        #![trigger lists(un@, u)]
                        lists(un@, u) <==> (ds_denotes(sm@, n0 as int, dsub, u) || (exists|j2: int|
                            0 <= j2 < j + 1 && (#[trigger] row@[j2]) as int == u)) by {
                        if lists(un@, u) {
                            let j3 = choose|j3: int|
                                0 <= j3 < un@.len() && (#[trigger] un@[j3]) as int == u;
                            if u0.contains(un@[j3]) {
                                let j4 = choose|j4: int| 0 <= j4 < u0.len() && u0[j4] == un@[j3];
                                assert(lists(u0, u));
                            } else {
                                assert(un@[j3] == row@[j as int]);
                                assert(row@[j as int] as int == u);
                            }
                        }
                        if ds_denotes(sm@, n0 as int, dsub, u) || (exists|j2: int|
                            0 <= j2 < j + 1 && (#[trigger] row@[j2]) as int == u) {
                            if ds_denotes(sm@, n0 as int, dsub, u) {
                                assert(lists(u0, u));
                            } else {
                                let j2 = choose|j2: int|
                                    0 <= j2 < j + 1 && (#[trigger] row@[j2]) as int == u;
                                if j2 < j {
                                    assert(lists(u0, u));
                                } else {
                                    assert(un@.contains(row@[j as int]));
                                    let j5 = choose|j5: int|
                                        0 <= j5 < un@.len() && un@[j5] == row@[j as int];
                                    assert(lists(un@, u));
                                }
                            }
                            if lists(u0, u) {
                                let j4 = choose|j4: int|
                                    0 <= j4 < u0.len() && (#[trigger] u0[j4]) as int == u;
                                assert(un@.contains(u0[j4]));
                                let j5 = choose|j5: int| 0 <= j5 < un@.len() && un@[j5] == u0[j4];
                                assert(lists(un@, u));
                            }
                        }
                    }
                }
            }
            proof {
                assert forall|u: int|
                    #![trigger lists(un@, u)]
                    lists(un@, u) <==> ds_denotes(sm@, n0 as int, dsub1, u) by {
                    assert(denotes(sm@, n0 as int, d as int, u) == (exists|j2: int|
                        0 <= j2 < m && (#[trigger] row@[j2]) as int == u));
                    if lists(un@, u) {
                        if ds_denotes(sm@, n0 as int, dsub, u) {
                            let i3 = choose|i3: int|
                                0 <= i3 < dsub.len() && denotes(
                                    sm@,
                                    n0 as int,
                                    (#[trigger] dsub[i3]) as int,
                                    u,
                                );
                            assert(dsub1[i3] == dsub[i3]);
                            assert(ds_denotes(sm@, n0 as int, dsub1, u));
                        } else {
                            assert(denotes(sm@, n0 as int, dsub1[i as int] as int, u));
                            assert(ds_denotes(sm@, n0 as int, dsub1, u));
                        }
                    }
                    if ds_denotes(sm@, n0 as int, dsub1, u) {
                        let i3 = choose|i3: int|
                            0 <= i3 < dsub1.len() && denotes(
                                sm@,
                                n0 as int,
                                (#[trigger] dsub1[i3]) as int,
                                u,
                            );
                        if i3 < dsub.len() {
                            assert(dsub[i3] == dsub1[i3]);
                            assert(ds_denotes(sm@, n0 as int, dsub, u));
                        } else {
                            assert(dsub1[i3] == d);
                        }
                    }
                }
            }
        }
    }
    proof {
        assert(ds@.subrange(0, n as int) =~= ds@);
    }
    un
}

/// A copy of an id vector.
fn copy_ids(v: &Vec<usize>) -> (r: Vec<usize>)
    ensures
        r@ == v@,
{
    let mut r: Vec<usize> = Vec::new();
    let n = v.len();
    for k in 0..n
        invariant
            n == v@.len(),
            r@ =~= v@.subrange(0, k as int),
    {
        r.push(v[k]);
        proof {
            assert(r@ =~= v@.subrange(0, k + 1));
        }
    }
    proof {
        assert(v@.subrange(0, n as int) =~= v@);
    }
    r
}

/// Automata with pointwise equal edge lists agree on non-determinism.
proof fn lemma_nondet_pointwise<T: Transitable>(a: Dfa<T>, b: Dfa<T>)
    requires
        forall|s: int|
            #![trigger a.edges_at(s)]
            #![trigger b.edges_at(s)]
            a.edges_at(s) == b.edges_at(s),
    ensures
        forall|s: int, x: T|
            #![trigger a.nondet_at(s, x)]
            #![trigger b.nondet_at(s, x)]
            a.nondet_at(s, x) == b.nondet_at(s, x),
{
    a.lemma_edges_pointwise(b);
    assert forall|s: int, x: T|
        #![trigger a.nondet_at(s, x)]
        #![trigger b.nondet_at(s, x)]
        a.nondet_at(s, x) == b.nondet_at(s, x) by {
        if a.nondet_at(s, x) {
            let (d1, d2) = choose|d1: int, d2: int|
                d1 != d2 && #[trigger] a.has_edge(s, x, d1) && #[trigger] a.has_edge(s, x, d2);
            assert(b.has_edge(s, x, d1) && b.has_edge(s, x, d2));
        }
        if b.nondet_at(s, x) {
            let (d1, d2) = choose|d1: int, d2: int|
                d1 != d2 && #[trigger] b.has_edge(s, x, d1) && #[trigger] b.has_edge(s, x, d2);
            assert(a.has_edge(s, x, d1) && a.has_edge(s, x, d2));
        }
    }
}

/// The record behind a finished subset construction, as the contract
/// exposes it: one sorted id set per synthesized state, accepting when
/// a member accepts, and every state's edges reaching, through what
/// they stand for, exactly the original destinations of what the state
/// stands for.
pub open spec fn subset_witness<T: Transitable>(
    o: Dfa<T>,
    a: Dfa<T>,
    smv: Seq<Vec<usize>>,
) -> bool {
    let n0 = o.n_slots() as int;
    &&& a.n_slots() == n0 + smv.len()
    &&& forall|i: int|
        0 <= i < smv.len() ==> strictly_sorted((#[trigger] smv[i])@) && ids_below(smv[i]@, n0)
    &&& forall|i: int, j: int|
        0 <= i < smv.len() && 0 <= j < smv.len() && i != j ==> (#[trigger] smv[i])@ != (
        #[trigger] smv[j])@
    &&& forall|i: int| 0 <= i < smv.len() ==> (#[trigger] smv[i])@.len() >= 2
    &&& forall|i: int|
        0 <= i < smv.len() ==> ((#[trigger] a.accepting(n0 + i)) == any_accepting(o, smv[i]@))
    &&& forall|s: int, x: T| #[trigger] sim_at(o, a, smv, n0, s, x)
}

/// The core relation the construction maintains between the original
/// automaton `o`, the automaton under construction `a`, and the record
/// `smv` of id sets behind the states allocated past `n0`.
spec fn det_core<T: Transitable>(o: Dfa<T>, a: Dfa<T>, smv: Seq<Vec<usize>>, n0: int) -> bool {
    &&& o.wf()
    &&& a.wf()
    &&& n0 == o.n_slots()
    &&& a.n_slots() == n0 + smv.len()
    &&& a.initial_id() == o.initial_id()
    &&& a.current_id() == o.current_id()
    &&& a.alpha_sq() == o.alpha_sq()
    &&& forall|s: int| 0 <= s < n0 ==> a.state_sq()[s] == o.state_sq()[s]
    &&& forall|i: int| 0 <= i < smv.len() ==> #[trigger] a.live(n0 + i)
    &&& forall|i: int|
        0 <= i < smv.len() ==> strictly_sorted((#[trigger] smv[i])@) && ids_below(smv[i]@, n0)
    &&& forall|i: int, j: int|
        0 <= i < smv.len() && 0 <= j < smv.len() && i != j ==> (#[trigger] smv[i])@ != (
        #[trigger] smv[j])@
    &&& forall|i: int, j: int|
        0 <= i < smv.len() && 0 <= j < smv[i]@.len() ==> a.live(#[trigger] smv[i]@[j] as int)
    &&& forall|i: int|
        0 <= i < smv.len() ==> (#[trigger] a.accepting(n0 + i)) == any_accepting(o, smv[i]@)
}

impl<T: Transitable> Dfa<T> {
    /// Find the synthesized state standing for the id set `sub`, or
    /// create it, accepting when any member accepts. `sm` records, for
    /// each state allocated past `n0`, the id set it stands for.
    fn lookup_or_create(&mut self, sm: &mut Vec<Vec<usize>>, sub: Vec<usize>, n0: usize) -> (r: (
        usize,
        bool,
    ))
        requires
            old(self).wf(),
            old(self).n_slots() == n0 + old(sm)@.len(),
            strictly_sorted(sub@),
            ids_below(sub@, n0 as int),
            forall|i: int|
                0 <= i < old(sm)@.len() ==> strictly_sorted((#[trigger] old(sm)@[i])@)
                    && ids_below(old(sm)@[i]@, n0 as int),
            forall|i: int, j: int|
                0 <= i < old(sm)@.len() && 0 <= j < old(sm)@.len() && i != j ==> (#[trigger] old(
                    sm,
                )@[i])@ != (#[trigger] old(sm)@[j])@,
            forall|i: int| 0 <= i < old(sm)@.len() ==> #[trigger] old(self).live(n0 + i),
        ensures
            final(self).wf(),
            final(self).n_slots() == n0 + final(sm)@.len(),
            final(sm)@.len() >= old(sm)@.len(),
            r.1 ==> final(sm)@.len() <= pow2(n0 as nat),
            forall|i: int| 0 <= i < old(sm)@.len() ==> final(sm)@[i] == old(sm)@[i],
            forall|i: int|
                0 <= i < final(sm)@.len() ==> strictly_sorted((#[trigger] final(sm)@[i])@)
                    && ids_below(final(sm)@[i]@, n0 as int),
            forall|i: int, j: int|
                0 <= i < final(sm)@.len() && 0 <= j < final(sm)@.len() && i != j ==> (
                #[trigger] final(sm)@[i])@ != (#[trigger] final(sm)@[j])@,
            n0 <= r.0 < final(self).n_slots(),
            final(sm)@[r.0 - n0]@ == sub@,
            !r.1 ==> *final(self) == *old(self) && final(sm)@ == old(sm)@,
            r.1 ==> final(sm)@.len() == old(sm)@.len() + 1 && r.0 == old(self).n_slots(),
            r.1 ==> final(self).state_sq() == old(self).state_sq().push(
                Some(any_accepting(*old(self), sub@)),
            ),
            r.1 ==> final(self).alpha_sq() == old(self).alpha_sq() && final(self).initial_id()
                == old(self).initial_id() && final(self).current_id() == old(self).current_id(),
            forall|s: int| #[trigger] final(self).edges_at(s) == old(self).edges_at(s),
            forall|s: int| 0 <= s < old(self).n_slots() ==> final(self).state_sq()[s] == old(
                self,
            ).state_sq()[s],
            forall|i: int| 0 <= i < final(sm)@.len() ==> #[trigger] final(self).live(n0 + i),
            final(self).live(r.0 as int),
    {
        let total = self.state_slot_count();
        let m = sm.len();
        for i in 0..m
            invariant
                m == sm@.len(),
                self.wf(),
                self.n_slots() == n0 + sm@.len(),
                total == self.n_slots(),
                *self == *old(self),
                sm@ == old(sm)@,
                forall|i2: int|
                    0 <= i2 < old(sm)@.len() ==> strictly_sorted((#[trigger] old(sm)@[i2])@)
                        && ids_below(old(sm)@[i2]@, n0 as int),
                forall|i2: int, j2: int|
                    0 <= i2 < old(sm)@.len() && 0 <= j2 < old(sm)@.len() && i2 != j2 ==> (
                    #[trigger] old(sm)@[i2])@ != (#[trigger] old(sm)@[j2])@,
                forall|i2: int| 0 <= i2 < old(sm)@.len() ==> #[trigger] old(self).live(n0 + i2),
                forall|i2: int| 0 <= i2 < i ==> (#[trigger] sm@[i2])@ != sub@,
        {
            if ids_equal(&sm[i], &sub) {
                proof {
                    assert(n0 + i <= total);
                    assert forall|i2: int|
                        0 <= i2 < sm@.len() implies strictly_sorted((#[trigger] sm@[i2])@)
                        && ids_below(sm@[i2]@, n0 as int) by {
                        assert(sm@[i2] == old(sm)@[i2]);
                    }
                    assert forall|i2: int, j2: int|
                        0 <= i2 < sm@.len() && 0 <= j2 < sm@.len() && i2 != j2 implies (
                    #[trigger] sm@[i2])@ != (#[trigger] sm@[j2])@ by {
                        assert(sm@[i2] == old(sm)@[i2] && sm@[j2] == old(sm)@[j2]);
                    }
                    assert forall|i2: int|
                        0 <= i2 < sm@.len() implies #[trigger] self.live(n0 + i2) by {
                        assert(old(self).live(n0 + i2));
                    }
                }
                return (n0 + i, false);
            }
        }
        // not found: allocate a fresh state for this set
        let mut acc = false;
        let sl = sub.len();
        for j in 0..sl
            invariant
                sl == sub@.len(),
                self.wf(),
                acc == (exists|j2: int|
                    0 <= j2 < j && self.accepting((#[trigger] sub@[j2]) as int)),
        {
            if self.state_accept(sub[j]) {
                acc = true;
            }
        }
        proof {
            assert(acc == any_accepting(*self, sub@));
        }
        let ghost sm0 = sm@;
        let ghost sub_g = sub@;
        proof {
            assert(sm0.len() < pow2(n0 as nat)) by {
                let all = sm0.map_values(|q: Vec<usize>| q@).push(sub_g);
                assert forall|i: int|
                    0 <= i < all.len() implies strictly_sorted(#[trigger] all[i]) && ids_below(
                    all[i],
                    n0 as int,
                ) by {
                    if i < sm0.len() {
                        assert(all[i] == sm0[i]@);
                    } else {
                        assert(all[i] == sub_g);
                    }
                }
                assert forall|i: int, j: int|
                    0 <= i < all.len() && 0 <= j < all.len() && i != j implies #[trigger] all[i]
                    != #[trigger] all[j] by {
                    if i < sm0.len() && j < sm0.len() {
                        assert(all[i] == sm0[i]@ && all[j] == sm0[j]@);
                    } else {
                        let o = if i < sm0.len() {
                            i
                        } else {
                            j
                        };
                        assert(all[o] == sm0[o]@ && sm0[o]@ != sub_g);
                    }
                }
                lemma_subset_count(all, n0 as nat);
            }
        }
        let ghost pre_add = *self;
        let id = self.add_state(acc);
        sm.push(sub);
        proof {
            assert(sm@[sm@.len() - 1]@ == sub_g);
            assert forall|i: int| 0 <= i < sm0.len() implies sm@[i] == sm0[i] by {}
            assert forall|i: int|
                0 <= i < sm@.len() implies strictly_sorted((#[trigger] sm@[i])@) && ids_below(
                sm@[i]@,
                n0 as int,
            ) by {
                if i < sm0.len() {
                    assert(sm@[i] == sm0[i]);
                } else {
                    assert(sm@[i]@ == sub_g);
                }
            }
            assert forall|s2: int| #[trigger]
                self.edges_at(s2) == pre_add.edges_at(s2) by {
                if 0 <= s2 < pre_add.trans_sq().len() {
                    assert(self.edges_at(s2) == pre_add.edges_at(s2));
                } else if s2 == pre_add.trans_sq().len() {
                    assert(self.edges_at(s2) =~= Seq::<Transition<T>>::empty());
                    assert(pre_add.edges_at(s2) =~= Seq::<Transition<T>>::empty());
                }
            }
            assert forall|s2: int|
                0 <= s2 < pre_add.n_slots() implies self.state_sq()[s2] == pre_add.state_sq()[s2] by {}
            assert forall|i: int|
                0 <= i < sm@.len() implies #[trigger] self.live(n0 + i) by {
                if i < sm0.len() {
                    assert(pre_add.live(n0 + i));
                } else {
                    assert(n0 + i == id as int);
                }
            }
            assert forall|i: int, j: int|
                0 <= i < sm@.len() && 0 <= j < sm@.len() && i != j implies (#[trigger] sm@[i])@
                != (#[trigger] sm@[j])@ by {
                if i < sm0.len() && j < sm0.len() {
                    assert(sm@[i] == sm0[i] && sm@[j] == sm0[j]);
                } else {
                    let o = if i < sm0.len() {
                        i
                    } else {
                        j
                    };
                    assert(sm@[o] == sm0[o]);
                    assert(sm0[o]@ != sub_g);
                }
            }
        }
        (id, true)
    }

    /// Subset construction, in place. Every state that reads some symbol
    /// towards several destinations has those edges redirected to a
    /// synthesized state standing for the destination set; synthesized
    /// states get one edge per symbol, towards a member or a further
    /// synthesized set, and accept when any member accepts. Afterwards no
    /// state reads any symbol non-deterministically, the accepted
    /// language is unchanged, the original states keep their ids and
    /// flags, and an automaton that was already deterministic is left
    /// untouched. The record behind the synthesized states is exposed as
    /// a `subset_witness`.
    #[verifier::rlimit(100)]
    pub fn determinize(&mut self)
        requires
            old(self).wf(),
        ensures
            final(self).wf(),
            final(self).deterministic(),
            final(self).initial_id() == old(self).initial_id(),
            final(self).current_id() == old(self).current_id(),
            final(self).alpha_sq() == old(self).alpha_sq(),
            final(self).n_slots() >= old(self).n_slots(),
            forall|s: int|
                0 <= s < old(self).n_slots() ==> final(self).state_sq()[s] == old(
                    self,
                ).state_sq()[s],
            forall|s: int|
                old(self).n_slots() <= s < final(self).n_slots() ==> final(self).live(s),
            forall|s: int|
                old(self).n_slots() <= s < final(self).n_slots()
                    && #[trigger] final(self).accepting(s) ==> exists|t: int|
                    0 <= t < old(self).n_slots() && old(self).accepting(t),
            forall|w: Seq<T>| #[trigger] final(self).accepts(w) == old(self).accepts(w),
            exists|smv: Seq<Vec<usize>>| #[trigger] subset_witness(
                *old(self),
                *final(self),
                smv,
            ),
            old(self).deterministic() ==> *final(self) == *old(self),
    {
        let ghost orig = *old(self);
        match self.non_determinist_states() {
            None => {
                proof {
                    let smv = Seq::<Vec<usize>>::empty();
                    let n0e = orig.n_slots() as int;
                    assert forall|s2: int, x: T| #[trigger] sim_at(
                        orig,
                        *self,
                        smv,
                        n0e,
                        s2,
                        x,
                    ) by {
                        assert forall|u: int|
                            #![trigger reaches(*self, smv, n0e, s2, x, u)]
                            #![trigger orig_steps(orig, smv, n0e, s2, x, u)]
                            reaches(*self, smv, n0e, s2, x, u) == orig_steps(
                            orig,
                            smv,
                            n0e,
                            s2,
                            x,
                            u,
                        ) by {
                            if reaches(*self, smv, n0e, s2, x, u) {
                                let d = choose|d: int|
                                    #[trigger] self.has_edge(s2, x, d) && denotes(smv, n0e, d, u);
                                assert(self.live(d));
                                assert(u == d);
                                assert(self.live(s2));
                                assert(denotes(smv, n0e, s2, s2) && orig.has_edge(s2, x, u));
                            }
                            if orig_steps(orig, smv, n0e, s2, x, u) {
                                let t = choose|t: int|
                                    denotes(smv, n0e, s2, t) && #[trigger] orig.has_edge(t, x, u);
                                assert(t == s2);
                                assert(orig.live(u));
                                assert(self.has_edge(s2, x, u) && denotes(smv, n0e, u, u));
                            }
                        }
                    }
                    assert(subset_witness(orig, *self, smv));
                }
                return ;
            },
            Some(_) => {},
        }
        let n0 = self.state_slot_count();
        let alpha = self.clone_alphabet();
        let al = alpha.len();
        let mut sm: Vec<Vec<usize>> = Vec::new();
        proof {
            assert forall|s2: int, x: T|
                0 <= s2 < n0 implies #[trigger] sim_at(orig, *self, sm@, n0 as int, s2, x) by {
                assert forall|u: int|
                    #![trigger reaches(*self, sm@, n0 as int, s2, x, u)]
                    #![trigger orig_steps(orig, sm@, n0 as int, s2, x, u)]
                    reaches(*self, sm@, n0 as int, s2, x, u) == orig_steps(
                    orig,
                    sm@,
                    n0 as int,
                    s2,
                    x,
                    u,
                ) by {
                    lemma_orig_steps_plain(orig, sm@, n0 as int, s2, x, u);
                    if reaches(*self, sm@, n0 as int, s2, x, u) {
                        let d = choose|d: int|
                            #[trigger] self.has_edge(s2, x, d) && denotes(sm@, n0 as int, d, u);
                        assert(self.live(d));
                        assert(u == d);
                        assert(orig.has_edge(s2, x, u));
                    }
                    if orig.has_edge(s2, x, u) {
                        assert(orig.live(u));
                        assert(self.has_edge(s2, x, u) && denotes(sm@, n0 as int, u, u));
                    }
                }
            }
        }
        // First pass: give every original state at most one edge per
        // symbol, redirecting multiple destinations to a synthesized
        // subset state.
        for s in 0..n0
            invariant
                det_core(orig, *self, sm@, n0 as int),
                al == alpha@.len(),
                alpha@ == orig.alpha_sq(),
                sm@.len() <= pow2(n0 as nat),
                forall|s2: int, x: T| 0 <= s2 < s ==> !(#[trigger] self.nondet_at(s2, x)),
                forall|t: int| n0 <= t ==> #[trigger] self.edges_at(t).len() == 0,
                forall|s2: int, x: T|
                    0 <= s2 < n0 ==> #[trigger] sim_at(orig, *self, sm@, n0 as int, s2, x),
                forall|i: int| 0 <= i < sm@.len() ==> (#[trigger] sm@[i])@.len() >= 2,
        {
            for k in 0..al
                invariant
                    det_core(orig, *self, sm@, n0 as int),
                    s < n0,
                    al == alpha@.len(),
                    alpha@ == orig.alpha_sq(),
                    sm@.len() <= pow2(n0 as nat),
                    forall|s2: int, x: T| 0 <= s2 < s ==> !(#[trigger] self.nondet_at(s2, x)),
                    forall|k2: int|
                        0 <= k2 < k ==> !(#[trigger] self.nondet_at(s as int, alpha@[k2])),
                    forall|t: int| n0 <= t ==> #[trigger] self.edges_at(t).len() == 0,
                    forall|s2: int, x: T|
                        0 <= s2 < n0 ==> #[trigger] sim_at(orig, *self, sm@, n0 as int, s2, x),
                    forall|i: int| 0 <= i < sm@.len() ==> (#[trigger] sm@[i])@.len() >= 2,
            {
                let ds = self.dests_on(s, &alpha[k]);
                if ds.len() > 1 {
                    proof {
                        assert forall|i: int|
                            0 <= i < ds@.len() implies (#[trigger] ds@[i]) < n0 + sm@.len() by {
                            assert(ds@.contains(ds@[i]));
                            assert(self.has_edge(s as int, alpha@[k as int], ds@[i] as int));
                            assert(self.live(ds@[i] as int));
                        }
                    }
                    let ex = expand_ids(&ds, &sm, n0);
                    let sub = sort_ids(&ex);
                    proof {
                        assert(ids_below(sub@, n0 as int)) by {
                            assert forall|i: int|
                                0 <= i < sub@.len() implies (#[trigger] sub@[i]) < n0 by {
                                assert(sub@.contains(sub@[i]));
                                assert(ex@.contains(sub@[i]));
                                let i2 = choose|i2: int|
                                    0 <= i2 < ex@.len() && ex@[i2] == sub@[i];
                            }
                        }
                        // members of the new set are live states
                        assert forall|i: int|
                            0 <= i < sub@.len() implies self.live((#[trigger] sub@[i]) as int) by {
                            assert(sub@.contains(sub@[i]));
                            assert(ex@.contains(sub@[i]));
                            let i2 = choose|i2: int| 0 <= i2 < ex@.len() && ex@[i2] == sub@[i];
                            assert(ds@.contains(ex@[i2]) || member_of(sm@, ex@[i2]));
                            if ds@.contains(ex@[i2]) {
                                assert(self.has_edge(s as int, alpha@[k as int], ex@[i2] as int));
                            } else {
                                let (a2, b2) = choose|a2: int, b2: int|
                                    0 <= a2 < sm@.len() && 0 <= b2 < sm@[a2]@.len()
                                        && #[trigger] sm@[a2]@[b2] == ex@[i2];
                                assert(self.live(sm@[a2]@[b2] as int));
                            }
                        }
                        assert(ex@.len() >= 2) by {
                            let d1 = ds@[0];
                            let d2 = ds@[1];
                            assert(d1 != d2);
                            if d1 >= n0 {
                                let m1 = sm@[d1 - n0]@[0];
                                let m2 = sm@[d1 - n0]@[1];
                                assert(m1 < m2);
                                assert(ds_denotes(sm@, n0 as int, ds@, m1 as int)) by {
                                    assert(denotes(
                                        sm@,
                                        n0 as int,
                                        (#[trigger] ds@[0]) as int,
                                        m1 as int,
                                    ));
                                }
                                assert(ds_denotes(sm@, n0 as int, ds@, m2 as int)) by {
                                    assert(denotes(
                                        sm@,
                                        n0 as int,
                                        (#[trigger] ds@[0]) as int,
                                        m2 as int,
                                    ));
                                }
                                assert(lists(ex@, m1 as int));
                                assert(lists(ex@, m2 as int));
                                let j1 = choose|j1: int|
                                    0 <= j1 < ex@.len() && (#[trigger] ex@[j1]) as int
                                        == m1 as int;
                                let j2 = choose|j2: int|
                                    0 <= j2 < ex@.len() && (#[trigger] ex@[j2]) as int
                                        == m2 as int;
                                assert(j1 != j2);
                            } else if d2 >= n0 {
                                let m1 = sm@[d2 - n0]@[0];
                                let m2 = sm@[d2 - n0]@[1];
                                assert(m1 < m2);
                                assert(ds_denotes(sm@, n0 as int, ds@, m1 as int)) by {
                                    assert(denotes(
                                        sm@,
                                        n0 as int,
                                        (#[trigger] ds@[1]) as int,
                                        m1 as int,
                                    ));
                                }
                                assert(ds_denotes(sm@, n0 as int, ds@, m2 as int)) by {
                                    assert(denotes(
                                        sm@,
                                        n0 as int,
                                        (#[trigger] ds@[1]) as int,
                                        m2 as int,
                                    ));
                                }
                                assert(lists(ex@, m1 as int));
                                assert(lists(ex@, m2 as int));
                                let j1 = choose|j1: int|
                                    0 <= j1 < ex@.len() && (#[trigger] ex@[j1]) as int
                                        == m1 as int;
                                let j2 = choose|j2: int|
                                    0 <= j2 < ex@.len() && (#[trigger] ex@[j2]) as int
                                        == m2 as int;
                                assert(j1 != j2);
                            } else {
                                assert(ds_denotes(sm@, n0 as int, ds@, d1 as int)) by {
                                    assert(denotes(
                                        sm@,
                                        n0 as int,
                                        (#[trigger] ds@[0]) as int,
                                        d1 as int,
                                    ));
                                }
                                assert(ds_denotes(sm@, n0 as int, ds@, d2 as int)) by {
                                    assert(denotes(
                                        sm@,
                                        n0 as int,
                                        (#[trigger] ds@[1]) as int,
                                        d2 as int,
                                    ));
                                }
                                assert(lists(ex@, d1 as int));
                                assert(lists(ex@, d2 as int));
                                let j1 = choose|j1: int|
                                    0 <= j1 < ex@.len() && (#[trigger] ex@[j1]) as int
                                        == d1 as int;
                                let j2 = choose|j2: int|
                                    0 <= j2 < ex@.len() && (#[trigger] ex@[j2]) as int
                                        == d2 as int;
                                assert(j1 != j2);
                            }
                        }
                        assert(sub@.len() >= 2) by {
                            assert(ex@[0] != ex@[1]);
                            assert(ex@.contains(ex@[0]));
                            assert(ex@.contains(ex@[1]));
                            assert(sub@.contains(ex@[0]));
                            assert(sub@.contains(ex@[1]));
                            let j1 = choose|j1: int| 0 <= j1 < sub@.len() && sub@[j1] == ex@[0];
                            let j2 = choose|j2: int| 0 <= j2 < sub@.len() && sub@[j2] == ex@[1];
                            assert(j1 != j2);
                        }
                    }
                    let ghost sub_g = sub@;
                    let ghost before_lookup = *self;
                    let ghost sm_before = sm@;
                    let (ns, _created) = self.lookup_or_create(&mut sm, sub, n0);
                    proof {
                        before_lookup.lemma_edges_pointwise(*self);
                        lemma_nondet_pointwise(before_lookup, *self);
                        assert forall|i: int|
                            0 <= i < sm@.len() implies (#[trigger] sm@[i])@.len() >= 2 by {
                            if i < sm_before.len() {
                                assert(sm@[i] == sm_before[i]);
                            } else {
                                assert(sm@[i]@ == sub_g);
                            }
                        }
                        // the new id set's members stay live
                        assert forall|i: int, j: int|
                            0 <= i < sm@.len() && 0 <= j < sm@[i]@.len() implies self.live(
                            #[trigger] sm@[i]@[j] as int,
                        ) by {
                            if i < sm_before.len() {
                                assert(sm@[i] == sm_before[i]);
                                assert(before_lookup.live(sm_before[i]@[j] as int));
                            } else {
                                assert(sm@[i]@ == sub_g);
                                assert(before_lookup.live(sub_g[j] as int));
                            }
                        }
                        assert(self.has_edge(s as int, alpha@[k as int], ds@[0] as int)) by {
                            assert(ds@.contains(ds@[0]));
                            assert(before_lookup.has_edge(s as int, alpha@[k as int], ds@[0] as int));
                        }
                        assert(self.live(s as int)) by {
                            assert(before_lookup.live(s as int));
                        }
                        assert forall|s2: int, x2: T|
                            0 <= s2 < n0 implies #[trigger] sim_at(
                            orig,
                            *self,
                            sm@,
                            n0 as int,
                            s2,
                            x2,
                        ) by {
                            assert forall|u: int|
                                #![trigger reaches(*self, sm@, n0 as int, s2, x2, u)]
                                #![trigger orig_steps(orig, sm@, n0 as int, s2, x2, u)]
                                reaches(*self, sm@, n0 as int, s2, x2, u) == orig_steps(
                                orig,
                                sm@,
                                n0 as int,
                                s2,
                                x2,
                                u,
                            ) by {
                                assert(reaches(*self, sm@, n0 as int, s2, x2, u) == reaches(
                                    before_lookup,
                                    sm@,
                                    n0 as int,
                                    s2,
                                    x2,
                                    u,
                                )) by {
                                    if reaches(*self, sm@, n0 as int, s2, x2, u) {
                                        let d = choose|d: int|
                                            #[trigger] self.has_edge(s2, x2, d) && denotes(
                                                sm@,
                                                n0 as int,
                                                d,
                                                u,
                                            );
                                        assert(before_lookup.has_edge(s2, x2, d) && denotes(
                                            sm@,
                                            n0 as int,
                                            d,
                                            u,
                                        ));
                                    }
                                    if reaches(before_lookup, sm@, n0 as int, s2, x2, u) {
                                        let d = choose|d: int|
                                            #[trigger] before_lookup.has_edge(s2, x2, d)
                                                && denotes(sm@, n0 as int, d, u);
                                        assert(self.has_edge(s2, x2, d) && denotes(
                                            sm@,
                                            n0 as int,
                                            d,
                                            u,
                                        ));
                                    }
                                }
                                lemma_reaches_grow(
                                    before_lookup,
                                    sm_before,
                                    sm@,
                                    n0 as int,
                                    s2,
                                    x2,
                                    u,
                                );
                                assert(sim_at(orig, before_lookup, sm_before, n0 as int, s2, x2));
                                lemma_orig_steps_plain(orig, sm@, n0 as int, s2, x2, u);
                                lemma_orig_steps_plain(orig, sm_before, n0 as int, s2, x2, u);
                            }
                        }
                    }
                    let ghost before_redir = *self;
                    self.redirect_symbol(s, &alpha[k], ns);
                    proof {
                        // unprocessed and synthesized states keep their
                        // (empty) edge lists; earlier states keep theirs
                        assert forall|t: int|
                            n0 <= t implies #[trigger] self.edges_at(t).len() == 0 by {
                            assert(self.edges_at(t) == before_redir.edges_at(t));
                            assert(before_redir.edges_at(t) == before_lookup.edges_at(t));
                        }
                        assert forall|s2: int, x: T|
                            0 <= s2 < s implies !(#[trigger] self.nondet_at(s2, x)) by {
                            if self.nondet_at(s2, x) {
                                let (d1, d2) = choose|d1: int, d2: int|
                                    d1 != d2 && #[trigger] self.has_edge(s2, x, d1)
                                        && #[trigger] self.has_edge(s2, x, d2);
                                assert(before_redir.has_edge(s2, x, d1) && before_redir.has_edge(
                                    s2,
                                    x,
                                    d2,
                                ));
                                assert(before_redir.nondet_at(s2, x));
                            }
                        }
                        assert forall|k2: int|
                            0 <= k2 < k + 1 implies !(#[trigger] self.nondet_at(
                            s as int,
                            alpha@[k2],
                        )) by {
                            if self.nondet_at(s as int, alpha@[k2]) {
                                let (d1, d2) = choose|d1: int, d2: int|
                                    d1 != d2 && #[trigger] self.has_edge(s as int, alpha@[k2], d1)
                                        && #[trigger] self.has_edge(s as int, alpha@[k2], d2);
                                if alpha@[k2] == alpha@[k as int] {
                                    assert(d1 == ns as int && d2 == ns as int);
                                } else {
                                    assert(before_redir.has_edge(s as int, alpha@[k2], d1)
                                        && before_redir.has_edge(s as int, alpha@[k2], d2));
                                    assert(before_redir.nondet_at(s as int, alpha@[k2]));
                                    assert(k2 < k);
                                }
                            }
                        }
                        assert forall|i: int, j: int|
                            0 <= i < sm@.len() && 0 <= j < sm@[i]@.len() implies self.live(
                            #[trigger] sm@[i]@[j] as int,
                        ) by {
                            assert(before_redir.live(sm@[i]@[j] as int));
                        }
                        assert(det_core(orig, *self, sm@, n0 as int)) by {
                            assert(self.state_sq() == before_redir.state_sq());
                            assert forall|s2: int|
                                0 <= s2 < n0 implies self.state_sq()[s2] == orig.state_sq()[s2] by {
                                assert(before_redir.state_sq()[s2] == before_lookup.state_sq()[s2]);
                            }
                            assert forall|i: int|
                                0 <= i < sm@.len() implies #[trigger] self.live(n0 + i) by {
                                assert(before_redir.live(n0 + i));
                            }
                            assert forall|i: int|
                                0 <= i < sm@.len() implies (#[trigger] self.accepting(n0 + i))
                                == any_accepting(orig, sm@[i]@) by {
                                assert(self.accepting(n0 + i) == before_redir.accepting(n0 + i));
                                if i < sm_before.len() {
                                    assert(sm@[i] == sm_before[i]);
                                    assert(before_redir.accepting(n0 + i) == before_lookup.accepting(
                                        n0 + i,
                                    ));
                                    assert(before_lookup.accepting(n0 + i) == any_accepting(
                                        orig,
                                        sm_before[i]@,
                                    ));
                                } else {
                                    assert(sm@[i]@ == sub_g);
                                    assert(before_redir.accepting(n0 + i) == any_accepting(
                                        before_lookup,
                                        sub_g,
                                    ));
                                    assert(any_accepting(before_lookup, sub_g) == any_accepting(
                                        orig,
                                        sub_g,
                                    )) by {
                                        if any_accepting(before_lookup, sub_g) {
                                            let j = choose|j: int|
                                                0 <= j < sub_g.len() && before_lookup.accepting(
                                                    #[trigger] sub_g[j] as int,
                                                );
                                            assert(before_lookup.state_sq()[sub_g[j] as int]
                                                == orig.state_sq()[sub_g[j] as int]);
                                            assert(orig.accepting(sub_g[j] as int));
                                        }
                                        if any_accepting(orig, sub_g) {
                                            let j = choose|j: int|
                                                0 <= j < sub_g.len() && orig.accepting(
                                                    #[trigger] sub_g[j] as int,
                                                );
                                            assert(before_lookup.accepting(sub_g[j] as int));
                                        }
                                    }
                                }
                            }
                        }
                        assert forall|s2: int, x2: T|
                            0 <= s2 < n0 implies #[trigger] sim_at(
                            orig,
                            *self,
                            sm@,
                            n0 as int,
                            s2,
                            x2,
                        ) by {
                            assert forall|u: int|
                                #![trigger reaches(*self, sm@, n0 as int, s2, x2, u)]
                                #![trigger orig_steps(orig, sm@, n0 as int, s2, x2, u)]
                                reaches(*self, sm@, n0 as int, s2, x2, u) == orig_steps(
                                orig,
                                sm@,
                                n0 as int,
                                s2,
                                x2,
                                u,
                            ) by {
                                lemma_orig_steps_plain(orig, sm@, n0 as int, s2, x2, u);
                                if s2 == s as int && x2 == alpha@[k as int] {
                                    if reaches(*self, sm@, n0 as int, s2, x2, u) {
                                        let d = choose|d: int|
                                            #[trigger] self.has_edge(s2, x2, d) && denotes(
                                                sm@,
                                                n0 as int,
                                                d,
                                                u,
                                            );
                                        assert(d == ns as int);
                                        assert(sm@[ns - n0]@ == sub_g);
                                        let j = choose|j: int|
                                            0 <= j < sm@[ns - n0]@.len() && (#[trigger] sm@[ns
                                                - n0]@[j]) as int == u;
                                        assert(sub_g[j] as int == u);
                                        assert(sub_g.contains(sub_g[j]));
                                        assert(ex@.contains(sub_g[j]));
                                        let j2 = choose|j2: int|
                                            0 <= j2 < ex@.len() && ex@[j2] == sub_g[j];
                                        assert(lists(ex@, u));
                                        assert(ds_denotes(sm_before, n0 as int, ds@, u));
                                        let i2 = choose|i2: int|
                                            0 <= i2 < ds@.len() && denotes(
                                                sm_before,
                                                n0 as int,
                                                (#[trigger] ds@[i2]) as int,
                                                u,
                                            );
                                        assert(ds@.contains(ds@[i2]));
                                        assert(before_lookup.has_edge(
                                            s as int,
                                            alpha@[k as int],
                                            ds@[i2] as int,
                                        ));
                                        assert(reaches(
                                            before_lookup,
                                            sm_before,
                                            n0 as int,
                                            s as int,
                                            alpha@[k as int],
                                            u,
                                        )) by {
                                            assert(before_lookup.has_edge(
                                                s as int,
                                                alpha@[k as int],
                                                ds@[i2] as int,
                                            ) && denotes(
                                                sm_before,
                                                n0 as int,
                                                ds@[i2] as int,
                                                u,
                                            ));
                                        }
                                        assert(sim_at(
                                            orig,
                                            before_lookup,
                                            sm_before,
                                            n0 as int,
                                            s as int,
                                            alpha@[k as int],
                                        ));
                                        lemma_orig_steps_plain(
                                            orig,
                                            sm_before,
                                            n0 as int,
                                            s as int,
                                            alpha@[k as int],
                                            u,
                                        );
                                        assert(orig.has_edge(s2, x2, u));
                                    }
                                    if orig.has_edge(s2, x2, u) {
                                        lemma_orig_steps_plain(
                                            orig,
                                            sm_before,
                                            n0 as int,
                                            s as int,
                                            alpha@[k as int],
                                            u,
                                        );
                                        assert(sim_at(
                                            orig,
                                            before_lookup,
                                            sm_before,
                                            n0 as int,
                                            s as int,
                                            alpha@[k as int],
                                        ));
                                        assert(reaches(
                                            before_lookup,
                                            sm_before,
                                            n0 as int,
                                            s as int,
                                            alpha@[k as int],
                                            u,
                                        ));
                                        let d = choose|d: int|
                                            #[trigger] before_lookup.has_edge(
                                                s as int,
                                                alpha@[k as int],
                                                d,
                                            ) && denotes(sm_before, n0 as int, d, u);
                                        assert(before_lookup.live(d));
                                        assert(ds@.contains(d as usize));
                                        let i2 = choose|i2: int|
                                            0 <= i2 < ds@.len() && ds@[i2] == d as usize;
                                        assert(denotes(
                                            sm_before,
                                            n0 as int,
                                            ds@[i2] as int,
                                            u,
                                        ));
                                        assert(ds_denotes(sm_before, n0 as int, ds@, u));
                                        assert(lists(ex@, u));
                                        let j2 = choose|j2: int|
                                            0 <= j2 < ex@.len() && (#[trigger] ex@[j2]) as int
                                                == u;
                                        assert(ex@.contains(ex@[j2]));
                                        assert(sub_g.contains(ex@[j2]));
                                        let j3 = choose|j3: int|
                                            0 <= j3 < sub_g.len() && sub_g[j3] == ex@[j2];
                                        assert(denotes(sm@, n0 as int, ns as int, u)) by {
                                            assert(sm@[ns - n0]@[j3] as int == u);
                                        }
                                        assert(self.has_edge(s2, x2, ns as int));
                                        assert(reaches(*self, sm@, n0 as int, s2, x2, u)) by {
                                            assert(self.has_edge(s2, x2, ns as int) && denotes(
                                                sm@,
                                                n0 as int,
                                                ns as int,
                                                u,
                                            ));
                                        }
                                    }
                                } else {
                                    assert(reaches(*self, sm@, n0 as int, s2, x2, u) == reaches(
                                        before_redir,
                                        sm@,
                                        n0 as int,
                                        s2,
                                        x2,
                                        u,
                                    )) by {
                                        if reaches(*self, sm@, n0 as int, s2, x2, u) {
                                            let d = choose|d: int|
                                                #[trigger] self.has_edge(s2, x2, d) && denotes(
                                                    sm@,
                                                    n0 as int,
                                                    d,
                                                    u,
                                                );
                                            assert(before_redir.has_edge(s2, x2, d) && denotes(
                                                sm@,
                                                n0 as int,
                                                d,
                                                u,
                                            ));
                                        }
                                        if reaches(before_redir, sm@, n0 as int, s2, x2, u) {
                                            let d = choose|d: int|
                                                #[trigger] before_redir.has_edge(s2, x2, d)
                                                    && denotes(sm@, n0 as int, d, u);
                                            assert(self.has_edge(s2, x2, d) && denotes(
                                                sm@,
                                                n0 as int,
                                                d,
                                                u,
                                            ));
                                        }
                                    }
                                    assert(sim_at(orig, before_redir, sm@, n0 as int, s2, x2));
                                }
                            }
                        }
                    }
                } else {
                    proof {
                        assert(!self.nondet_at(s as int, alpha@[k as int]));
                        assert forall|k2: int|
                            0 <= k2 < k + 1 implies !(#[trigger] self.nondet_at(
                            s as int,
                            alpha@[k2],
                        )) by {}
                    }
                }
            }
            proof {
                // every symbol of an edge is in the alphabet, so per-symbol
                // determinism covers all symbols
                assert forall|s2: int, x: T|
                    0 <= s2 < s + 1 implies !(#[trigger] self.nondet_at(s2, x)) by {
                    if s2 == s as int && self.nondet_at(s2, x) {
                        let (d1, d2) = choose|d1: int, d2: int|
                            d1 != d2 && #[trigger] self.has_edge(s2, x, d1)
                                && #[trigger] self.has_edge(s2, x, d2);
                        assert(self.alpha_has(x));
                        let k2 = choose|k2: int|
                            0 <= k2 < self.alpha_sq().len() && self.alpha_sq()[k2] == x;
                        assert(!self.nondet_at(s2, alpha@[k2]));
                    }
                }
            }
        }
        // Second pass: give each synthesized state one edge per symbol,
        // towards the member (or the set of members) its set reaches.
        let mut wi: usize = 0;
        while wi < sm.len()
            invariant
                det_core(orig, *self, sm@, n0 as int),
                al == alpha@.len(),
                alpha@ == orig.alpha_sq(),
                wi <= sm@.len(),
                sm@.len() <= pow2(n0 as nat),
                forall|s2: int, x: T| 0 <= s2 < n0 ==> !(#[trigger] self.nondet_at(s2, x)),
                forall|s2: int, x: T|
                    n0 <= s2 < n0 + wi ==> !(#[trigger] self.nondet_at(s2, x)),
                forall|t: int| n0 + wi <= t ==> #[trigger] self.edges_at(t).len() == 0,
                forall|s2: int, x: T|
                    0 <= s2 < n0 ==> #[trigger] sim_at(orig, *self, sm@, n0 as int, s2, x),
                forall|s2: int, x: T|
                    n0 <= s2 < n0 + wi ==> #[trigger] sim_at(orig, *self, sm@, n0 as int, s2, x),
                forall|i: int| 0 <= i < sm@.len() ==> (#[trigger] sm@[i])@.len() >= 2,
            decreases pow2(n0 as nat) - sm@.len(), sm@.len() - wi,
        {
            let total = self.state_slot_count();
            let ns = n0 + wi;
            let members = copy_ids(&sm[wi]);
            let ghost entry_sm_len = sm@.len();
            proof {
                assert(self.edges_at(ns as int).len() == 0);
                assert forall|x: T| !(#[trigger] self.nondet_at(ns as int, x)) by {
                    if self.nondet_at(ns as int, x) {
                        let (d1, d2) = choose|d1: int, d2: int|
                            d1 != d2 && #[trigger] self.has_edge(ns as int, x, d1)
                                && #[trigger] self.has_edge(ns as int, x, d2);
                        let i = choose|i: int|
                            0 <= i < self.edges_at(ns as int).len() && #[trigger] self.edges_at(
                                ns as int,
                            )[i].0 == x && self.edges_at(ns as int)[i].1 == d1;
                    }
                }
                assert forall|x: T, d: int|
                    #[trigger] self.has_edge(ns as int, x, d) implies alpha@.subrange(
                    0,
                    0,
                ).contains(x) by {
                    let i = choose|i: int|
                        0 <= i < self.edges_at(ns as int).len() && #[trigger] self.edges_at(
                            ns as int,
                        )[i].0 == x && self.edges_at(ns as int)[i].1 == d;
                }
            }
            for k in 0..al
                invariant
                    det_core(orig, *self, sm@, n0 as int),
                    al == alpha@.len(),
                    alpha@ == orig.alpha_sq(),
                    wi < sm@.len(),
                    ns == n0 + wi,
                    members@ == sm@[wi as int]@,
                    sm@.len() >= entry_sm_len,
                    sm@.len() <= pow2(n0 as nat),
                    forall|s2: int, x: T| 0 <= s2 < n0 ==> !(#[trigger] self.nondet_at(s2, x)),
                    forall|s2: int, x: T|
                        n0 <= s2 < n0 + wi ==> !(#[trigger] self.nondet_at(s2, x)),
                    forall|x: T| !(#[trigger] self.nondet_at(ns as int, x)),
                    forall|x: T, d: int|
                        #[trigger] self.has_edge(ns as int, x, d) ==> alpha@.subrange(
                            0,
                            k as int,
                        ).contains(x),
                    forall|t: int| n0 + wi < t ==> #[trigger] self.edges_at(t).len() == 0,
                    forall|s2: int, x: T|
                        0 <= s2 < n0 ==> #[trigger] sim_at(orig, *self, sm@, n0 as int, s2, x),
                    forall|s2: int, x: T|
                        n0 <= s2 < n0 + wi ==> #[trigger] sim_at(
                            orig,
                            *self,
                            sm@,
                            n0 as int,
                            s2,
                            x,
                        ),
                    forall|k2: int|
                        0 <= k2 < k ==> #[trigger] sim_at(
                            orig,
                            *self,
                            sm@,
                            n0 as int,
                            ns as int,
                            alpha@[k2],
                        ),
                    forall|i: int| 0 <= i < sm@.len() ==> (#[trigger] sm@[i])@.len() >= 2,
            {
                // gather every destination the members reach on this symbol
                let mut un: Vec<usize> = Vec::new();
                let ml = members.len();
                let ghost snap = *self;
                let ghost sm_snap = sm@;
                for ti in 0..ml
                    invariant
                        *self == snap,
                        sm@ == sm_snap,
                        self.wf(),
                        k < al,
                        al == alpha@.len(),
                        ml == members@.len(),
                        distinct_ids(un@),
                        forall|i2: int|
                            0 <= i2 < un@.len() ==> edge_target(*self, #[trigger] un@[i2]),
                        forall|d2: usize|
                            #[trigger] un@.contains(d2) <==> (exists|t2: int|
                                0 <= t2 < ti && self.has_edge(
                                    #[trigger] members@[t2] as int,
                                    alpha@[k as int],
                                    d2 as int,
                                )),
                {
                    let ds = self.dests_on(members[ti], &alpha[k]);
                    let dl = ds.len();
                    for q in 0..dl
                        invariant
                            *self == snap,
                            sm@ == sm_snap,
                            self.wf(),
                            k < al,
                            al == alpha@.len(),
                            dl == ds@.len(),
                            ti < ml,
                            ml == members@.len(),
                            forall|d2: usize|
                                #[trigger] ds@.contains(d2) ==> self.has_edge(
                                    members@[ti as int] as int,
                                    alpha@[k as int],
                                    d2 as int,
                                ),
                            distinct_ids(un@),
                            forall|i2: int|
                                0 <= i2 < un@.len() ==> edge_target(*self, #[trigger] un@[i2]),
                            forall|d2: usize|
                                #[trigger] un@.contains(d2) <==> ((exists|t2: int|
                                    0 <= t2 < ti && self.has_edge(
                                        #[trigger] members@[t2] as int,
                                        alpha@[k as int],
                                        d2 as int,
                                    )) || (exists|q2: int|
                                    0 <= q2 < q && (#[trigger] ds@[q2]) == d2)),
                    {
                        let ghost u0 = un@;
                        push_unique(&mut un, ds[q]);
                        proof {
                            assert forall|i2: int|
                                0 <= i2 < un@.len() implies edge_target(
                                *self,
                                #[trigger] un@[i2],
                            ) by {
                                if u0.contains(un@[i2]) {
                                    let i3 = choose|i3: int|
                                        0 <= i3 < u0.len() && u0[i3] == un@[i2];
                                    assert(edge_target(*self, u0[i3]));
                                } else {
                                    assert(un@[i2] == ds@[q as int]);
                                    assert(ds@.contains(ds@[q as int]));
                                    assert(self.has_edge(
                                        members@[ti as int] as int,
                                        alpha@[k as int],
                                        un@[i2] as int,
                                    ));
                                }
                            }
                            assert forall|d2: usize|
                                #[trigger] un@.contains(d2) <==> ((exists|t2: int|
                                    0 <= t2 < ti && self.has_edge(
                                        #[trigger] members@[t2] as int,
                                        alpha@[k as int],
                                        d2 as int,
                                    )) || (exists|q2: int|
                                    0 <= q2 < q + 1 && (#[trigger] ds@[q2]) == d2)) by {
                                if un@.contains(d2) {
                                    if u0.contains(d2) {
                                        if exists|q2: int|
                                            0 <= q2 < q && (#[trigger] ds@[q2]) == d2 {
                                            let q2 = choose|q2: int|
                                                0 <= q2 < q && (#[trigger] ds@[q2]) == d2;
                                            assert(ds@[q2] == d2);
                                        }
                                    } else {
                                        assert(d2 == ds@[q as int]);
                                    }
                                }
                                if exists|t2: int|
                                    0 <= t2 < ti && self.has_edge(
                                        #[trigger] members@[t2] as int,
                                        alpha@[k as int],
                                        d2 as int,
                                    ) {
                                    assert(u0.contains(d2));
                                }
                                if exists|q2: int| 0 <= q2 < q + 1 && (#[trigger] ds@[q2]) == d2 {
                                    let q2 = choose|q2: int|
                                        0 <= q2 < q + 1 && (#[trigger] ds@[q2]) == d2;
                                    if q2 < q {
                                        assert(u0.contains(d2));
                                    } else {
                                        assert(d2 == ds@[q as int]);
                                    }
                                }
                            }
                        }
                    }
                    proof {
                        assert forall|d2: usize|
                            #[trigger] un@.contains(d2) <==> (exists|t2: int|
                                0 <= t2 < ti + 1 && self.has_edge(
                                    #[trigger] members@[t2] as int,
                                    alpha@[k as int],
                                    d2 as int,
                                )) by {
                            if un@.contains(d2) {
                                if exists|t2: int|
                                    0 <= t2 < ti && self.has_edge(
                                        #[trigger] members@[t2] as int,
                                        alpha@[k as int],
                                        d2 as int,
                                    ) {
                                    let t2 = choose|t2: int|
                                        0 <= t2 < ti && self.has_edge(
                                            #[trigger] members@[t2] as int,
                                            alpha@[k as int],
                                            d2 as int,
                                        );
                                    assert(self.has_edge(
                                        members@[t2] as int,
                                        alpha@[k as int],
                                        d2 as int,
                                    ));
                                } else {
                                    let q2 = choose|q2: int|
                                        0 <= q2 < ds@.len() && (#[trigger] ds@[q2]) == d2;
                                    assert(ds@.contains(d2));
                                    assert(self.has_edge(
                                        members@[ti as int] as int,
                                        alpha@[k as int],
                                        d2 as int,
                                    ));
                                }
                            }
                            if exists|t2: int|
                                0 <= t2 < ti + 1 && self.has_edge(
                                    #[trigger] members@[t2] as int,
                                    alpha@[k as int],
                                    d2 as int,
                                ) {
                                let t2 = choose|t2: int|
                                    0 <= t2 < ti + 1 && self.has_edge(
                                        #[trigger] members@[t2] as int,
                                        alpha@[k as int],
                                        d2 as int,
                                    );
                                if t2 < ti {
                                    assert(un@.contains(d2));
                                } else {
                                    assert(ds@.contains(d2));
                                    let q2 = choose|q2: int|
                                        0 <= q2 < ds@.len() && ds@[q2] == d2;
                                    assert(un@.contains(d2));
                                }
                            }
                        }
                    }
                }
                proof {
                    assert forall|i2: int|
                        0 <= i2 < un@.len() implies (#[trigger] un@[i2]) < n0 + sm@.len() by {
                        assert(edge_target(*self, un@[i2]));
                        let (s3, x3) = choose|s3: int, x3: T|
                            self.has_edge(s3, x3, un@[i2] as int);
                        assert(self.live(un@[i2] as int));
                    }
                }
                let ex = expand_ids(&un, &sm, n0);
                if ex.len() == 0 {
                    proof {
                        assert forall|u: int|
                            #![trigger reaches(*self, sm@, n0 as int, ns as int, alpha@[k as int], u)]
                            #![trigger orig_steps(orig, sm@, n0 as int, ns as int, alpha@[k as int], u)]
                            reaches(*self, sm@, n0 as int, ns as int, alpha@[k as int], u)
                            == orig_steps(
                            orig,
                            sm@,
                            n0 as int,
                            ns as int,
                            alpha@[k as int],
                            u,
                        ) by {
                            if reaches(*self, sm@, n0 as int, ns as int, alpha@[k as int], u) {
                                let d = choose|d: int|
                                    #[trigger] self.has_edge(ns as int, alpha@[k as int], d)
                                        && denotes(sm@, n0 as int, d, u);
                                assert(alpha@.subrange(0, k as int).contains(alpha@[k as int]));
                                let k2 = choose|k2: int|
                                    0 <= k2 < k && #[trigger] alpha@.subrange(0, k as int)[k2]
                                        == alpha@[k as int];
                                assert(self.alpha_sq()[k2] == self.alpha_sq()[k as int]);
                                assert(false);
                            }
                            if orig_steps(orig, sm@, n0 as int, ns as int, alpha@[k as int], u) {
                                lemma_members_steps(
                                    orig,
                                    sm@,
                                    n0 as int,
                                    ns as int,
                                    alpha@[k as int],
                                    u,
                                );
                                assert forall|t2: int|
                                    0 <= t2 < members@.len() implies #[trigger] sim_at(
                                    orig,
                                    *self,
                                    sm@,
                                    n0 as int,
                                    members@[t2] as int,
                                    alpha@[k as int],
                                ) by {
                                    assert((members@[t2] as int) < n0);
                                }
                                lemma_union_orig(
                                    orig,
                                    *self,
                                    sm@,
                                    n0 as int,
                                    members@,
                                    un@,
                                    alpha@[k as int],
                                    u,
                                );
                                assert(ds_denotes(sm@, n0 as int, un@, u));
                                assert(lists(ex@, u));
                                let j2 = choose|j2: int|
                                    0 <= j2 < ex@.len() && (#[trigger] ex@[j2]) as int == u;
                                assert(false);
                            }
                        }
                        assert(sim_at(orig, *self, sm@, n0 as int, ns as int, alpha@[k as int]));
                        assert forall|k2: int|
                            0 <= k2 < k + 1 implies #[trigger] sim_at(
                            orig,
                            *self,
                            sm@,
                            n0 as int,
                            ns as int,
                            alpha@[k2],
                        ) by {}
                    }
                } else if ex.len() == 1 {
                    proof {
                        assert(self.live(ex@[0] as int)) by {
                            assert(un@.contains(ex@[0]) || member_of(sm@, ex@[0]));
                            if un@.contains(ex@[0]) {
                                let i3 = choose|i3: int|
                                    0 <= i3 < un@.len() && un@[i3] == ex@[0];
                                assert(edge_target(*self, un@[i3]));
                                let (s3, x3) = choose|s3: int, x3: T|
                                    self.has_edge(s3, x3, un@[i3] as int);
                            } else {
                                let (a2, b2) = choose|a2: int, b2: int|
                                    0 <= a2 < sm@.len() && 0 <= b2 < sm@[a2]@.len()
                                        && #[trigger] sm@[a2]@[b2] == ex@[0];
                            }
                        }
                        assert(self.live(ns as int));
                    }
                    let ghost before_add = *self;
                    let dst = ex[0];
                    self.create_transition_between(ns, dst, alpha[k].dup());
                    proof {
                        self.phase_b_edge_proofs(
                            before_add,
                            sm@,
                            alpha@,
                            n0 as int,
                            wi as int,
                            k as int,
                            dst as int,
                        );
                        assert(det_core(orig, *self, sm@, n0 as int)) by {
                            assert(before_add.alpha_has(alpha@[k as int])) by {
                                assert(before_add.alpha_sq()[k as int] == alpha@[k as int]);
                            }
                            assert(self.alpha_sq() == before_add.alpha_sq());
                            assert(self.state_sq() == before_add.state_sq());
                            assert forall|i: int|
                                0 <= i < sm@.len() implies (#[trigger] self.accepting(n0 + i))
                                == any_accepting(orig, sm@[i]@) by {
                                assert(self.accepting(n0 + i) == before_add.accepting(n0 + i));
                            }
                            assert forall|s2: int|
                                0 <= s2 < n0 implies self.state_sq()[s2] == orig.state_sq()[s2] by {
                                assert(before_add.state_sq()[s2] == orig.state_sq()[s2]);
                            }
                            assert forall|i: int|
                                0 <= i < sm@.len() implies #[trigger] self.live(n0 + i) by {
                                assert(before_add.live(n0 + i));
                            }
                            assert forall|i: int, j: int|
                                0 <= i < sm@.len() && 0 <= j < sm@[i]@.len() implies self.live(
                                #[trigger] sm@[i]@[j] as int,
                            ) by {
                                assert(before_add.live(sm@[i]@[j] as int));
                            }
                        }
                        // simulations carry over; the new edge realizes this symbol
                        assert forall|s2: int, x2: T|
                            (0 <= s2 < n0 || (n0 <= s2 < n0 + wi)) implies #[trigger] sim_at(
                            orig,
                            *self,
                            sm@,
                            n0 as int,
                            s2,
                            x2,
                        ) by {
                            assert forall|dd: int|
                                #![trigger before_add.has_edge(s2, x2, dd)]
                                #![trigger self.has_edge(s2, x2, dd)]
                                before_add.has_edge(s2, x2, dd) == self.has_edge(s2, x2, dd) by {}
                            assert(sim_at(orig, before_add, sm@, n0 as int, s2, x2));
                            lemma_sim_transfer(orig, before_add, *self, sm@, sm@, n0 as int, s2, x2);
                        }
                        assert forall|k2: int|
                            0 <= k2 < k implies #[trigger] sim_at(
                            orig,
                            *self,
                            sm@,
                            n0 as int,
                            ns as int,
                            alpha@[k2],
                        ) by {
                            assert forall|dd: int|
                                #![trigger before_add.has_edge(ns as int, alpha@[k2], dd)]
                                #![trigger self.has_edge(ns as int, alpha@[k2], dd)]
                                before_add.has_edge(ns as int, alpha@[k2], dd) == self.has_edge(
                                ns as int,
                                alpha@[k2],
                                dd,
                            ) by {
                                if self.has_edge(ns as int, alpha@[k2], dd)
                                    && !before_add.has_edge(ns as int, alpha@[k2], dd) {
                                    assert(alpha@[k2] == alpha@[k as int]);
                                    assert(self.alpha_sq()[k2] == self.alpha_sq()[k as int]);
                                    assert(false);
                                }
                            }
                            assert(sim_at(orig, before_add, sm@, n0 as int, ns as int, alpha@[k2]));
                            lemma_sim_transfer(
                                orig,
                                before_add,
                                *self,
                                sm@,
                                sm@,
                                n0 as int,
                                ns as int,
                                alpha@[k2],
                            );
                        }
                        assert forall|u: int|
                            #![trigger reaches(*self, sm@, n0 as int, ns as int, alpha@[k as int], u)]
                            #![trigger orig_steps(orig, sm@, n0 as int, ns as int, alpha@[k as int], u)]
                            reaches(*self, sm@, n0 as int, ns as int, alpha@[k as int], u)
                            == orig_steps(
                            orig,
                            sm@,
                            n0 as int,
                            ns as int,
                            alpha@[k as int],
                            u,
                        ) by {
                            lemma_members_steps(
                                orig,
                                sm@,
                                n0 as int,
                                ns as int,
                                alpha@[k as int],
                                u,
                            );
                            assert forall|t2: int|
                                0 <= t2 < members@.len() implies #[trigger] sim_at(
                                orig,
                                before_add,
                                sm@,
                                n0 as int,
                                members@[t2] as int,
                                alpha@[k as int],
                            ) by {
                                assert((members@[t2] as int) < n0);
                            }
                            lemma_union_orig(
                                orig,
                                before_add,
                                sm@,
                                n0 as int,
                                members@,
                                un@,
                                alpha@[k as int],
                                u,
                            );
                            if reaches(*self, sm@, n0 as int, ns as int, alpha@[k as int], u) {
                                let d = choose|d: int|
                                    #[trigger] self.has_edge(ns as int, alpha@[k as int], d)
                                        && denotes(sm@, n0 as int, d, u);
                                if before_add.has_edge(ns as int, alpha@[k as int], d) {
                                    assert(alpha@.subrange(0, k as int).contains(
                                        alpha@[k as int],
                                    ));
                                    let k2 = choose|k2: int|
                                        0 <= k2 < k && #[trigger] alpha@.subrange(0, k as int)[k2]
                                            == alpha@[k as int];
                                    assert(self.alpha_sq()[k2] == self.alpha_sq()[k as int]);
                                    assert(false);
                                }
                                assert(d == dst as int);
                                assert((dst as int) < n0);
                                assert(u == dst as int);
                                assert(lists(ex@, u)) by {
                                    assert((ex@[0]) as int == u);
                                }
                                assert(ds_denotes(sm@, n0 as int, un@, u));
                            }
                            if orig_steps(orig, sm@, n0 as int, ns as int, alpha@[k as int], u) {
                                assert(ds_denotes(sm@, n0 as int, un@, u));
                                assert(lists(ex@, u));
                                let j2 = choose|j2: int|
                                    0 <= j2 < ex@.len() && (#[trigger] ex@[j2]) as int == u;
                                assert(j2 == 0);
                                assert(denotes(sm@, n0 as int, dst as int, u));
                                assert(self.has_edge(ns as int, alpha@[k as int], dst as int));
                                assert(reaches(
                                    *self,
                                    sm@,
                                    n0 as int,
                                    ns as int,
                                    alpha@[k as int],
                                    u,
                                )) by {
                                    assert(self.has_edge(ns as int, alpha@[k as int], dst as int)
                                        && denotes(sm@, n0 as int, dst as int, u));
                                }
                            }
                        }
                        assert(sim_at(orig, *self, sm@, n0 as int, ns as int, alpha@[k as int]));
                        assert forall|k2: int|
                            0 <= k2 < k + 1 implies #[trigger] sim_at(
                            orig,
                            *self,
                            sm@,
                            n0 as int,
                            ns as int,
                            alpha@[k2],
                        ) by {}
                    }
                } else {
                    let sub = sort_ids(&ex);
                    proof {
                        assert(ids_below(sub@, n0 as int)) by {
                            assert forall|i: int|
                                0 <= i < sub@.len() implies (#[trigger] sub@[i]) < n0 by {
                                assert(sub@.contains(sub@[i]));
                                assert(ex@.contains(sub@[i]));
                                let i2 = choose|i2: int|
                                    0 <= i2 < ex@.len() && ex@[i2] == sub@[i];
                            }
                        }
                        assert forall|i: int|
                            0 <= i < sub@.len() implies self.live((#[trigger] sub@[i]) as int) by {
                            assert(sub@.contains(sub@[i]));
                            assert(ex@.contains(sub@[i]));
                            let i2 = choose|i2: int| 0 <= i2 < ex@.len() && ex@[i2] == sub@[i];
                            assert(un@.contains(ex@[i2]) || member_of(sm@, ex@[i2]));
                            if un@.contains(ex@[i2]) {
                                let i3 = choose|i3: int|
                                    0 <= i3 < un@.len() && un@[i3] == ex@[i2];
                                assert(edge_target(*self, un@[i3]));
                                let (s3, x3) = choose|s3: int, x3: T|
                                    self.has_edge(s3, x3, un@[i3] as int);
                            } else {
                                let (a2, b2) = choose|a2: int, b2: int|
                                    0 <= a2 < sm@.len() && 0 <= b2 < sm@[a2]@.len()
                                        && #[trigger] sm@[a2]@[b2] == ex@[i2];
                            }
                        }
                    }
                    proof {
                        assert(sub@.len() >= 2) by {
                            assert(ex@[0] != ex@[1]);
                            assert(ex@.contains(ex@[0]));
                            assert(ex@.contains(ex@[1]));
                            assert(sub@.contains(ex@[0]));
                            assert(sub@.contains(ex@[1]));
                            let j1 = choose|j1: int| 0 <= j1 < sub@.len() && sub@[j1] == ex@[0];
                            let j2 = choose|j2: int| 0 <= j2 < sub@.len() && sub@[j2] == ex@[1];
                            assert(j1 != j2);
                        }
                    }
                    let ghost sub_g = sub@;
                    let ghost before_lookup = *self;
                    let ghost sm_before = sm@;
                    let (ns2, _created) = self.lookup_or_create(&mut sm, sub, n0);
                    proof {
                        before_lookup.lemma_edges_pointwise(*self);
                        lemma_nondet_pointwise(before_lookup, *self);
                        assert forall|i: int|
                            0 <= i < sm@.len() implies (#[trigger] sm@[i])@.len() >= 2 by {
                            if i < sm_before.len() {
                                assert(sm@[i] == sm_before[i]);
                            } else {
                                assert(sm@[i]@ == sub_g);
                            }
                        }
                        assert forall|i: int, j: int|
                            0 <= i < sm@.len() && 0 <= j < sm@[i]@.len() implies self.live(
                            #[trigger] sm@[i]@[j] as int,
                        ) by {
                            if i < sm_before.len() {
                                assert(sm@[i] == sm_before[i]);
                                assert(before_lookup.live(sm_before[i]@[j] as int));
                            } else {
                                assert(sm@[i]@ == sub_g);
                                assert(before_lookup.live(sub_g[j] as int));
                            }
                        }
                        assert(self.live(ns as int));
                        assert(members@ == sm@[wi as int]@);
                    }
                    let ghost before_add = *self;
                    self.create_transition_between(ns, ns2, alpha[k].dup());
                    proof {
                        self.phase_b_edge_proofs(
                            before_add,
                            sm@,
                            alpha@,
                            n0 as int,
                            wi as int,
                            k as int,
                            ns2 as int,
                        );
                        assert(det_core(orig, *self, sm@, n0 as int)) by {
                            assert(before_add.alpha_has(alpha@[k as int])) by {
                                assert(before_add.alpha_sq()[k as int] == alpha@[k as int]);
                            }
                            assert(self.alpha_sq() == before_add.alpha_sq());
                            assert(self.state_sq() == before_add.state_sq());
                            assert forall|i: int|
                                0 <= i < sm@.len() implies (#[trigger] self.accepting(n0 + i))
                                == any_accepting(orig, sm@[i]@) by {
                                assert(self.accepting(n0 + i) == before_add.accepting(n0 + i));
                                if i < sm_before.len() {
                                    assert(sm@[i] == sm_before[i]);
                                    assert(before_add.accepting(n0 + i) == before_lookup.accepting(
                                        n0 + i,
                                    ));
                                    assert(before_lookup.accepting(n0 + i) == any_accepting(
                                        orig,
                                        sm_before[i]@,
                                    ));
                                } else {
                                    assert(sm@[i]@ == sub_g);
                                    assert(before_add.accepting(n0 + i) == any_accepting(
                                        before_lookup,
                                        sub_g,
                                    ));
                                    assert(any_accepting(before_lookup, sub_g) == any_accepting(
                                        orig,
                                        sub_g,
                                    )) by {
                                        if any_accepting(before_lookup, sub_g) {
                                            let j = choose|j: int|
                                                0 <= j < sub_g.len() && before_lookup.accepting(
                                                    #[trigger] sub_g[j] as int,
                                                );
                                            assert(before_lookup.state_sq()[sub_g[j] as int]
                                                == orig.state_sq()[sub_g[j] as int]);
                                            assert(orig.accepting(sub_g[j] as int));
                                        }
                                        if any_accepting(orig, sub_g) {
                                            let j = choose|j: int|
                                                0 <= j < sub_g.len() && orig.accepting(
                                                    #[trigger] sub_g[j] as int,
                                                );
                                            assert(before_lookup.accepting(sub_g[j] as int));
                                        }
                                    }
                                }
                            }

                            assert forall|s2: int|
                                0 <= s2 < n0 implies self.state_sq()[s2] == orig.state_sq()[s2] by {
                                assert(before_add.state_sq()[s2] == orig.state_sq()[s2]);
                            }
                            assert forall|i: int|
                                0 <= i < sm@.len() implies #[trigger] self.live(n0 + i) by {
                                assert(before_add.live(n0 + i));
                            }
                            assert forall|i: int, j: int|
                                0 <= i < sm@.len() && 0 <= j < sm@[i]@.len() implies self.live(
                                #[trigger] sm@[i]@[j] as int,
                            ) by {
                                assert(before_add.live(sm@[i]@[j] as int));
                            }
                        }
                        // simulations carry over the lookup and the new edge
                        assert forall|s2: int, x2: T|
                            (0 <= s2 < n0 || (n0 <= s2 < n0 + wi)) implies #[trigger] sim_at(
                            orig,
                            *self,
                            sm@,
                            n0 as int,
                            s2,
                            x2,
                        ) by {
                            assert(sim_at(orig, before_lookup, sm_before, n0 as int, s2, x2));
                            assert forall|dd: int|
                                #![trigger before_lookup.has_edge(s2, x2, dd)]
                                #![trigger before_add.has_edge(s2, x2, dd)]
                                before_lookup.has_edge(s2, x2, dd) == before_add.has_edge(
                                s2,
                                x2,
                                dd,
                            ) by {}
                            lemma_sim_transfer(
                                orig,
                                before_lookup,
                                before_add,
                                sm_before,
                                sm@,
                                n0 as int,
                                s2,
                                x2,
                            );
                            assert forall|dd: int|
                                #![trigger before_add.has_edge(s2, x2, dd)]
                                #![trigger self.has_edge(s2, x2, dd)]
                                before_add.has_edge(s2, x2, dd) == self.has_edge(s2, x2, dd) by {}
                            lemma_sim_transfer(orig, before_add, *self, sm@, sm@, n0 as int, s2, x2);
                        }
                        assert forall|k2: int|
                            0 <= k2 < k implies #[trigger] sim_at(
                            orig,
                            *self,
                            sm@,
                            n0 as int,
                            ns as int,
                            alpha@[k2],
                        ) by {
                            assert(sim_at(
                                orig,
                                before_lookup,
                                sm_before,
                                n0 as int,
                                ns as int,
                                alpha@[k2],
                            ));
                            assert forall|dd: int|
                                #![trigger before_lookup.has_edge(ns as int, alpha@[k2], dd)]
                                #![trigger before_add.has_edge(ns as int, alpha@[k2], dd)]
                                before_lookup.has_edge(ns as int, alpha@[k2], dd)
                                == before_add.has_edge(ns as int, alpha@[k2], dd) by {}
                            lemma_sim_transfer(
                                orig,
                                before_lookup,
                                before_add,
                                sm_before,
                                sm@,
                                n0 as int,
                                ns as int,
                                alpha@[k2],
                            );
                            assert forall|dd: int|
                                #![trigger before_add.has_edge(ns as int, alpha@[k2], dd)]
                                #![trigger self.has_edge(ns as int, alpha@[k2], dd)]
                                before_add.has_edge(ns as int, alpha@[k2], dd) == self.has_edge(
                                ns as int,
                                alpha@[k2],
                                dd,
                            ) by {
                                if self.has_edge(ns as int, alpha@[k2], dd)
                                    && !before_add.has_edge(ns as int, alpha@[k2], dd) {
                                    assert(alpha@[k2] == alpha@[k as int]);
                                    assert(self.alpha_sq()[k2] == self.alpha_sq()[k as int]);
                                    assert(false);
                                }
                            }
                            lemma_sim_transfer(
                                orig,
                                before_add,
                                *self,
                                sm@,
                                sm@,
                                n0 as int,
                                ns as int,
                                alpha@[k2],
                            );
                        }
                        assert forall|u: int|
                            #![trigger reaches(*self, sm@, n0 as int, ns as int, alpha@[k as int], u)]
                            #![trigger orig_steps(orig, sm@, n0 as int, ns as int, alpha@[k as int], u)]
                            reaches(*self, sm@, n0 as int, ns as int, alpha@[k as int], u)
                            == orig_steps(
                            orig,
                            sm@,
                            n0 as int,
                            ns as int,
                            alpha@[k as int],
                            u,
                        ) by {
                            lemma_members_steps(
                                orig,
                                sm_before,
                                n0 as int,
                                ns as int,
                                alpha@[k as int],
                                u,
                            );
                            lemma_orig_steps_grow(
                                orig,
                                sm_before,
                                sm@,
                                n0 as int,
                                ns as int,
                                alpha@[k as int],
                                u,
                            );
                            assert(sm_before[ns - n0]@ == members@);
                            assert forall|t2: int|
                                0 <= t2 < members@.len() implies #[trigger] sim_at(
                                orig,
                                before_lookup,
                                sm_before,
                                n0 as int,
                                members@[t2] as int,
                                alpha@[k as int],
                            ) by {
                                assert((members@[t2] as int) < n0);
                            }
                            lemma_union_orig(
                                orig,
                                before_lookup,
                                sm_before,
                                n0 as int,
                                members@,
                                un@,
                                alpha@[k as int],
                                u,
                            );
                            if reaches(*self, sm@, n0 as int, ns as int, alpha@[k as int], u) {
                                let d = choose|d: int|
                                    #[trigger] self.has_edge(ns as int, alpha@[k as int], d)
                                        && denotes(sm@, n0 as int, d, u);
                                if before_add.has_edge(ns as int, alpha@[k as int], d) {
                                    assert(before_lookup.has_edge(ns as int, alpha@[k as int], d));
                                    assert(alpha@.subrange(0, k as int).contains(
                                        alpha@[k as int],
                                    ));
                                    let k2 = choose|k2: int|
                                        0 <= k2 < k && #[trigger] alpha@.subrange(0, k as int)[k2]
                                            == alpha@[k as int];
                                    assert(self.alpha_sq()[k2] == self.alpha_sq()[k as int]);
                                    assert(false);
                                }
                                assert(d == ns2 as int);
                                assert(sm@[ns2 - n0]@ == sub_g);
                                let j = choose|j: int|
                                    0 <= j < sm@[ns2 - n0]@.len() && (#[trigger] sm@[ns2
                                        - n0]@[j]) as int == u;
                                assert(sub_g[j] as int == u);
                                assert(sub_g.contains(sub_g[j]));
                                assert(ex@.contains(sub_g[j]));
                                let j2 = choose|j2: int|
                                    0 <= j2 < ex@.len() && ex@[j2] == sub_g[j];
                                assert(lists(ex@, u));
                                assert(ds_denotes(sm_before, n0 as int, un@, u));
                            }
                            if orig_steps(orig, sm@, n0 as int, ns as int, alpha@[k as int], u) {
                                assert(orig_steps(
                                    orig,
                                    sm_before,
                                    n0 as int,
                                    ns as int,
                                    alpha@[k as int],
                                    u,
                                ));
                                assert(ds_denotes(sm_before, n0 as int, un@, u));
                                assert(lists(ex@, u));
                                let j2 = choose|j2: int|
                                    0 <= j2 < ex@.len() && (#[trigger] ex@[j2]) as int == u;
                                assert(ex@.contains(ex@[j2]));
                                assert(sub_g.contains(ex@[j2]));
                                let j3 = choose|j3: int|
                                    0 <= j3 < sub_g.len() && sub_g[j3] == ex@[j2];
                                assert(denotes(sm@, n0 as int, ns2 as int, u)) by {
                                    assert(sm@[ns2 - n0]@[j3] as int == u);
                                }
                                assert(self.has_edge(ns as int, alpha@[k as int], ns2 as int));
                                assert(reaches(
                                    *self,
                                    sm@,
                                    n0 as int,
                                    ns as int,
                                    alpha@[k as int],
                                    u,
                                )) by {
                                    assert(self.has_edge(ns as int, alpha@[k as int], ns2 as int)
                                        && denotes(sm@, n0 as int, ns2 as int, u));
                                }
                            }
                        }
                        assert(sim_at(orig, *self, sm@, n0 as int, ns as int, alpha@[k as int]));
                        assert forall|k2: int|
                            0 <= k2 < k + 1 implies #[trigger] sim_at(
                            orig,
                            *self,
                            sm@,
                            n0 as int,
                            ns as int,
                            alpha@[k2],
                        ) by {}
                    }
                }
            }
            proof {
                assert forall|s2: int, x: T|
                    n0 <= s2 < n0 + wi + 1 implies !(#[trigger] self.nondet_at(s2, x)) by {
                    if s2 == ns as int {
                        assert(!self.nondet_at(ns as int, x));
                    }
                }
                assert forall|s2: int, x: T|
                    n0 <= s2 < n0 + wi + 1 implies #[trigger] sim_at(
                    orig,
                    *self,
                    sm@,
                    n0 as int,
                    s2,
                    x,
                ) by {
                    if s2 == ns as int {
                        if self.alpha_has(x) {
                            let k2 = choose|k2: int|
                                0 <= k2 < self.alpha_sq().len() && #[trigger] self.alpha_sq()[k2]
                                    == x;
                            assert(sim_at(orig, *self, sm@, n0 as int, ns as int, alpha@[k2]));
                        } else {
                            assert forall|u: int|
                                #![trigger reaches(*self, sm@, n0 as int, ns as int, x, u)]
                                #![trigger orig_steps(orig, sm@, n0 as int, ns as int, x, u)]
                                reaches(*self, sm@, n0 as int, ns as int, x, u) == orig_steps(
                                orig,
                                sm@,
                                n0 as int,
                                ns as int,
                                x,
                                u,
                            ) by {
                                if reaches(*self, sm@, n0 as int, ns as int, x, u) {
                                    let d = choose|d: int|
                                        #[trigger] self.has_edge(ns as int, x, d) && denotes(
                                            sm@,
                                            n0 as int,
                                            d,
                                            u,
                                        );
                                    assert(self.alpha_has(x));
                                }
                                if orig_steps(orig, sm@, n0 as int, ns as int, x, u) {
                                    let t = choose|t: int|
                                        denotes(sm@, n0 as int, ns as int, t)
                                            && #[trigger] orig.has_edge(t, x, u);
                                    assert(orig.alpha_has(x));
                                    assert(self.alpha_has(x));
                                }
                            }
                            assert(sim_at(orig, *self, sm@, n0 as int, ns as int, x));
                        }
                    }
                }
            }
            wi = wi + 1;
        }
        proof {
            assert forall|s2: int|
                n0 <= s2 < self.n_slots() implies #[trigger] self.live(s2) by {
                assert(self.live(n0 + (s2 - n0)));
            }
            // the simulation covers every state, so the language is kept
            assert forall|s2: int, x: T| #[trigger] sim_at(
                orig,
                *self,
                sm@,
                n0 as int,
                s2,
                x,
            ) by {
                if 0 <= s2 < n0 {
                } else if n0 <= s2 < n0 + sm@.len() {
                } else {
                    assert forall|u: int|
                        #![trigger reaches(*self, sm@, n0 as int, s2, x, u)]
                        #![trigger orig_steps(orig, sm@, n0 as int, s2, x, u)]
                        reaches(*self, sm@, n0 as int, s2, x, u) == orig_steps(
                        orig,
                        sm@,
                        n0 as int,
                        s2,
                        x,
                        u,
                    ) by {
                        if reaches(*self, sm@, n0 as int, s2, x, u) {
                            let d = choose|d: int|
                                #[trigger] self.has_edge(s2, x, d) && denotes(sm@, n0 as int, d, u);
                            assert(self.live(s2));
                        }
                        if orig_steps(orig, sm@, n0 as int, s2, x, u) {
                            let t = choose|t: int|
                                denotes(sm@, n0 as int, s2, t) && #[trigger] orig.has_edge(t, x, u);
                        }
                    }
                }
            }
            assert forall|s2: int| #[trigger]
                self.accepting(s2) == den_accepting(orig, sm@, n0 as int, s2) by {
                if 0 <= s2 < n0 {
                    assert(self.state_sq()[s2] == orig.state_sq()[s2]);
                    if self.accepting(s2) {
                        assert(denotes(sm@, n0 as int, s2, s2) && orig.accepting(s2));
                    }
                    if den_accepting(orig, sm@, n0 as int, s2) {
                        let t = choose|t: int|
                            denotes(sm@, n0 as int, s2, t) && #[trigger] orig.accepting(t);
                        assert(t == s2);
                    }
                } else if n0 <= s2 < n0 + sm@.len() {
                    let i = s2 - n0;
                    assert(self.accepting(n0 + i) == any_accepting(orig, sm@[i]@));
                    if self.accepting(s2) {
                        let j = choose|j: int|
                            0 <= j < sm@[i]@.len() && orig.accepting(
                                #[trigger] sm@[i]@[j] as int,
                            );
                        assert(denotes(sm@, n0 as int, s2, sm@[i]@[j] as int) && orig.accepting(
                            sm@[i]@[j] as int,
                        ));
                    }
                    if den_accepting(orig, sm@, n0 as int, s2) {
                        let t = choose|t: int|
                            denotes(sm@, n0 as int, s2, t) && #[trigger] orig.accepting(t);
                        let j = choose|j: int|
                            0 <= j < sm@[i]@.len() && (#[trigger] sm@[i]@[j]) as int == t;
                        assert(any_accepting(orig, sm@[i]@)) by {
                            assert(orig.accepting(sm@[i]@[j] as int));
                        }
                    }
                } else {
                    if den_accepting(orig, sm@, n0 as int, s2) {
                        let t = choose|t: int|
                            denotes(sm@, n0 as int, s2, t) && #[trigger] orig.accepting(t);
                    }
                }
            }
            assert(subset_witness(orig, *self, sm@));
            assert forall|w: Seq<T>| #[trigger] self.accepts(w) == orig.accepts(w) by {
                lemma_sim_accepts(orig, *self, sm@, n0 as int, self.initial_id(), w);
                assert(self.initial_id() == orig.initial_id());
                assert(0 <= orig.initial_id() < n0);
                if den_accepts(orig, sm@, n0 as int, self.initial_id(), w) {
                    let t = choose|t: int|
                        denotes(sm@, n0 as int, orig.initial_id(), t) && #[trigger] orig.accepts_from(
                            t,
                            w,
                        );
                    assert(t == orig.initial_id());
                }
                if orig.accepts(w) {
                    assert(denotes(sm@, n0 as int, orig.initial_id(), orig.initial_id())
                        && orig.accepts_from(orig.initial_id(), w));
                    assert(den_accepts(orig, sm@, n0 as int, self.initial_id(), w));
                }
            }
            assert forall|s2: int|
                n0 <= s2 < self.n_slots() && #[trigger] self.accepting(s2) implies exists|t: int|
                0 <= t < n0 && orig.accepting(t) by {
                let i = s2 - n0;
                assert(self.accepting(n0 + i) == any_accepting(orig, sm@[i]@));
                let j = choose|j: int|
                    0 <= j < sm@[i]@.len() && orig.accepting(#[trigger] sm@[i]@[j] as int);
                assert((sm@[i]@[j] as int) < n0);
            }
            assert forall|s2: int, x: T| !(#[trigger] self.nondet_at(s2, x)) by {
                if self.nondet_at(s2, x) {
                    let (d1, d2) = choose|d1: int, d2: int|
                        d1 != d2 && #[trigger] self.has_edge(s2, x, d1) && #[trigger] self.has_edge(
                            s2,
                            x,
                            d2,
                        );
                    assert(self.live(s2));
                    if s2 < n0 as int {
                    } else {
                        assert(n0 <= s2 < n0 + wi);
                    }
                }
            }
        }
    }

    /// After one edge is added from the synthesized state `n0 + wi` on
    /// the `k`-th alphabet symbol, that state stays deterministic, its
    /// edges stay within the processed symbols, and the rest of the
    /// automaton is untouched.
    proof fn phase_b_edge_proofs(
        &self,
        before: Self,
        smv: Seq<Vec<usize>>,
        alphav: Seq<T>,
        n0: int,
        wi: int,
        k: int,
        dst: int,
    )
        requires
            0 <= k < alphav.len(),
            alphav == before.alpha_sq(),
            forall|i: int, j: int|
                0 <= i < alphav.len() && 0 <= j < alphav.len() && i != j ==> #[trigger] alphav[i]
                    != #[trigger] alphav[j],
            forall|s2: int|
                s2 != n0 + wi ==> #[trigger] self.edges_at(s2) == before.edges_at(s2),
            forall|s2: int, x: T, d: int|
                #![trigger self.has_edge(s2, x, d)]
                #![trigger before.has_edge(s2, x, d)]
                self.has_edge(s2, x, d) <==> (before.has_edge(s2, x, d) || (s2 == n0 + wi && x
                    == alphav[k] && d == dst)),
            forall|s2: int, x: T| 0 <= s2 < n0 ==> !(#[trigger] before.nondet_at(s2, x)),
            forall|s2: int, x: T| n0 <= s2 < n0 + wi ==> !(#[trigger] before.nondet_at(s2, x)),
            forall|x: T| !(#[trigger] before.nondet_at(n0 + wi, x)),
            forall|x: T, d: int|
                #[trigger] before.has_edge(n0 + wi, x, d) ==> alphav.subrange(0, k).contains(x),
            forall|t: int| n0 + wi < t ==> #[trigger] before.edges_at(t).len() == 0,
        ensures
            forall|s2: int, x: T| 0 <= s2 < n0 ==> !(#[trigger] self.nondet_at(s2, x)),
            forall|s2: int, x: T| n0 <= s2 < n0 + wi ==> !(#[trigger] self.nondet_at(s2, x)),
            forall|x: T| !(#[trigger] self.nondet_at(n0 + wi, x)),
            forall|x: T, d: int|
                #[trigger] self.has_edge(n0 + wi, x, d) ==> alphav.subrange(0, k + 1).contains(x),
            forall|t: int| n0 + wi < t ==> #[trigger] self.edges_at(t).len() == 0,
    {
        assert forall|s2: int, x: T|
            0 <= s2 < n0 + wi implies !(#[trigger] self.nondet_at(s2, x)) by {
            if self.nondet_at(s2, x) {
                let (d1, d2) = choose|d1: int, d2: int|
                    d1 != d2 && #[trigger] self.has_edge(s2, x, d1) && #[trigger] self.has_edge(
                        s2,
                        x,
                        d2,
                    );
                assert(before.has_edge(s2, x, d1) && before.has_edge(s2, x, d2));
                assert(before.nondet_at(s2, x));
            }
        }
        assert forall|x: T| !(#[trigger] self.nondet_at(n0 + wi, x)) by {
            if self.nondet_at(n0 + wi, x) {
                let (d1, d2) = choose|d1: int, d2: int|
                    d1 != d2 && #[trigger] self.has_edge(n0 + wi, x, d1)
                        && #[trigger] self.has_edge(n0 + wi, x, d2);
                if before.has_edge(n0 + wi, x, d1) && before.has_edge(n0 + wi, x, d2) {
                    assert(before.nondet_at(n0 + wi, x));
                } else {
                    // one of the two is the new edge, the other is old
                    let old_d = if before.has_edge(n0 + wi, x, d1) {
                        d1
                    } else {
                        d2
                    };
                    if !before.has_edge(n0 + wi, x, d1) && !before.has_edge(n0 + wi, x, d2) {
                        assert(d1 == dst && d2 == dst);
                    } else {
                        assert(before.has_edge(n0 + wi, x, old_d));
                        assert(x == alphav[k]);
                        assert(alphav.subrange(0, k).contains(x));
                        let k2 = choose|k2: int|
                            0 <= k2 < k && alphav.subrange(0, k)[k2] == x;
                        assert(alphav[k2] == alphav[k]);
                    }
                }
            }
        }
        assert forall|x: T, d: int| #[trigger] self.has_edge(n0 + wi, x, d) implies alphav.subrange(
            0,
            k + 1,
        ).contains(x) by {
            if before.has_edge(n0 + wi, x, d) {
                assert(alphav.subrange(0, k).contains(x));
                let k2 = choose|k2: int| 0 <= k2 < k && alphav.subrange(0, k)[k2] == x;
                assert(alphav.subrange(0, k + 1)[k2] == x);
            } else {
                assert(x == alphav[k]);
                assert(alphav.subrange(0, k + 1)[k] == x);
            }
        }
        assert forall|t: int| n0 + wi < t implies #[trigger] self.edges_at(t).len() == 0 by {
            assert(self.edges_at(t) == before.edges_at(t));
        }
    }
}

} // verus!
