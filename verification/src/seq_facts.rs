//! Small general facts about sequence filtering used by the automaton
//! proofs.

use vstd::prelude::*;

verus! {

use vstd::seq_lib::*;

/// Filtering distributes over `push`.
pub proof fn lemma_filter_push<A>(s: Seq<A>, x: A, p: spec_fn(A) -> bool)
    ensures
        s.push(x).filter(p) == s.filter(p) + (if p(x) {
            seq![x]
        } else {
            Seq::<A>::empty()
        }),
{
    reveal_with_fuel(Seq::filter, 2);
    assert(s.push(x) =~= s + seq![x]);
    Seq::<A>::filter_distributes_over_add(s, seq![x], p);
    assert(seq![x].drop_last() =~= Seq::<A>::empty());
    if p(x) {
        assert(seq![x].filter(p) =~= seq![x]);
    } else {
        assert(seq![x].filter(p) =~= Seq::<A>::empty());
    }
}

/// Every element of a filtered sequence occurs in the original.
pub proof fn lemma_filter_elems<A>(s: Seq<A>, p: spec_fn(A) -> bool)
    ensures
        forall|i: int| 0 <= i < s.filter(p).len() ==> s.contains(#[trigger] s.filter(p)[i]),
    decreases s.len(),
{
    reveal_with_fuel(Seq::filter, 2);
    if s.len() == 0 {
    } else {
        let pre = s.drop_last();
        let x = s.last();
        lemma_filter_elems(pre, p);
        assert forall|i: int| 0 <= i < s.filter(p).len() implies s.contains(
            #[trigger] s.filter(p)[i],
        ) by {
            if i < pre.filter(p).len() {
                assert(s.filter(p)[i] == pre.filter(p)[i]);
                assert(pre.contains(pre.filter(p)[i]));
                let k = choose|k: int| 0 <= k < pre.len() && pre[k] == pre.filter(p)[i];
                assert(s[k] == pre.filter(p)[i]);
            } else {
                assert(p(x) && s.filter(p)[i] == x);
                assert(s[s.len() - 1] == x);
            }
        }
    }
}

/// Filtering keeps elements pairwise distinct.
pub proof fn lemma_filter_keeps_distinct<A>(s: Seq<A>, p: spec_fn(A) -> bool)
    requires
        forall|i: int, j: int|
            0 <= i < s.len() && 0 <= j < s.len() && i != j ==> #[trigger] s[i] != #[trigger] s[j],
    ensures
        forall|i: int, j: int|
            0 <= i < s.filter(p).len() && 0 <= j < s.filter(p).len() && i != j
                ==> #[trigger] s.filter(p)[i] != #[trigger] s.filter(p)[j],
    decreases s.len(),
{
    reveal_with_fuel(Seq::filter, 2);
    if s.len() == 0 {
    } else {
        let pre = s.drop_last();
        let x = s.last();
        lemma_filter_keeps_distinct(pre, p);
        lemma_filter_elems(pre, p);
        assert forall|i: int| 0 <= i < pre.filter(p).len() implies pre.filter(p)[i] != x by {
            assert(pre.contains(pre.filter(p)[i]));
            let k = choose|k: int| 0 <= k < pre.len() && pre[k] == pre.filter(p)[i];
            assert(s[k] == pre[k]);
            assert(s[k] != s[s.len() - 1]);
        }
        if p(x) {
            assert(s.filter(p) == pre.filter(p).push(x));
        } else {
            assert(s.filter(p) == pre.filter(p));
        }
    }
}

} // verus!
