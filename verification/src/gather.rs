//! Gathering a sequence through an index sequence, and what a permutation of
//! row positions preserves.

use vstd::prelude::*;
use vstd::seq_lib::group_to_multiset_ensures;

verus! {

broadcast use vstd::multiset::group_multiset_axioms;

/// The sequence whose `i`-th element is `v[p[i]]`.
pub open spec fn gather_seq<A>(v: Seq<A>, p: Seq<usize>) -> Seq<A> {
    Seq::new(p.len(), |i: int| v[p[i] as int])
}

/// The sequence `0, 1, ..., n-1`.
pub open spec fn identity_seq(n: nat) -> Seq<usize> {
    Seq::new(n, |i: int| i as usize)
}

/// `p` is a permutation of the positions `0 .. n`.
pub open spec fn is_perm_of(p: Seq<usize>, n: nat) -> bool {
    p.to_multiset() == identity_seq(n).to_multiset()
}

/// `p` lists every element of `0 .. n` exactly once, so it has length `n`
/// and each entry is below `n`.
pub proof fn lemma_perm_bounds(p: Seq<usize>, n: nat)
    requires
        is_perm_of(p, n),
        n <= usize::MAX,
    ensures
        p.len() == n,
        forall|i: int| 0 <= i < p.len() ==> (#[trigger] p[i]) < n,
{
    broadcast use group_to_multiset_ensures;

    assert(identity_seq(n).len() == n);
    assert(p.to_multiset().len() == identity_seq(n).to_multiset().len());
    assert(p.len() == n);
    assert forall|i: int| 0 <= i < p.len() implies (#[trigger] p[i]) < n by {
        assert(p.contains(p[i]));
        assert(p.to_multiset().count(p[i]) > 0);
        assert(identity_seq(n).contains(p[i]));
        let j = choose|j: int| 0 <= j < identity_seq(n).len() && identity_seq(n)[j] == p[i];
        assert(identity_seq(n)[j] == j as usize);
    }
}

/// Gathering through index sequences with equal multisets yields value
/// sequences with equal multisets.
pub proof fn lemma_gather_ms_congruence<A>(v: Seq<A>, p: Seq<usize>, q: Seq<usize>)
    requires
        p.to_multiset() == q.to_multiset(),
        forall|i: int| 0 <= i < p.len() ==> (#[trigger] p[i]) < v.len(),
    ensures
        gather_seq(v, p).to_multiset() == gather_seq(v, q).to_multiset(),
    decreases p.len(),
{
    broadcast use group_to_multiset_ensures;

    if p.len() == 0 {
        p.to_multiset_ensures();
        q.to_multiset_ensures();
        assert(p.to_multiset().len() == q.to_multiset().len());
        assert(q.len() == 0);
        assert(gather_seq(v, p) =~= gather_seq(v, q));
    } else {
        let last = p.len() - 1;
        let x = p[last as int];
        assert(p.contains(x));
        assert(q.to_multiset().count(x) > 0);
        assert(q.contains(x));
        let j = choose|j: int| 0 <= j < q.len() && q[j] == x;
        let p1 = p.remove(last as int);
        let q1 = q.remove(j);
        assert(p1.to_multiset() == q1.to_multiset());
        assert forall|i: int| 0 <= i < p1.len() implies (#[trigger] p1[i]) < v.len() by {
            assert(p1[i] == p[if i < last { i } else { i + 1 }]);
        }
        lemma_gather_ms_congruence(v, p1, q1);
        let gp = gather_seq(v, p);
        let gq = gather_seq(v, q);
        assert(gather_seq(v, p1) =~= gp.remove(last as int));
        assert(gather_seq(v, q1) =~= gq.remove(j));
        assert(gp.remove(last as int).to_multiset() == gp.to_multiset().remove(gp[last as int]));
        assert(gq.remove(j).to_multiset() == gq.to_multiset().remove(gq[j]));
        assert(gp[last as int] == v[x as int]);
        assert(gq[j] == v[x as int]);
        assert(gp.contains(gp[last as int]));
        assert(gp.to_multiset().count(v[x as int]) > 0);
        assert(gq.contains(gq[j]));
        assert(gq.to_multiset().count(v[x as int]) > 0);
        assert(gp.to_multiset() =~= gq.to_multiset()) by {
            assert forall|a: A| gp.to_multiset().count(a) == gq.to_multiset().count(a) by {
                if a == v[x as int] {
                    assert(gp.to_multiset().remove(a).count(a) == gp.to_multiset().count(a) - 1);
                    assert(gq.to_multiset().remove(a).count(a) == gq.to_multiset().count(a) - 1);
                } else {
                    assert(gp.to_multiset().remove(v[x as int]).count(a) == gp.to_multiset().count(a));
                    assert(gq.to_multiset().remove(v[x as int]).count(a) == gq.to_multiset().count(a));
                }
            }
        }
    }
}

/// Gathering through a permutation of all positions preserves the multiset of
/// values: the result is a reordering of `v`.
pub proof fn lemma_gather_perm_ms<A>(v: Seq<A>, p: Seq<usize>)
    requires
        is_perm_of(p, v.len()),
        v.len() <= usize::MAX,
    ensures
        gather_seq(v, p).to_multiset() == v.to_multiset(),
{
    lemma_perm_bounds(p, v.len());
    lemma_gather_ms_congruence(v, p, identity_seq(v.len()));
    let id = identity_seq(v.len());
    assert forall|i: int| 0 <= i < v.len() implies gather_seq(v, id)[i] == v[i] by {
        assert(id[i] == i as usize);
    }
    assert(gather_seq(v, id) =~= v);
}

} // verus!
