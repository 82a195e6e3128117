//! Subsequences, and the subsequence of the elements that satisfy a test.

use vstd::prelude::*;

verus! {

broadcast use vstd::seq_lib::group_seq_properties;

/// `f` places the elements of `a`, in order, at increasing positions of `b`.
pub open spec fn embeds<A>(f: Seq<int>, a: Seq<A>, b: Seq<A>) -> bool {
    &&& f.len() == a.len()
    &&& forall|i: int| 0 <= i < a.len() ==> 0 <= #[trigger] f[i] < b.len() && a[i] == b[f[i]]
    &&& forall|i: int, j: int| 0 <= i < j < a.len() ==> #[trigger] f[i] < #[trigger] f[j]
}

/// `a` is `b` with some elements left out, the others in their order.
pub open spec fn is_subsequence<A>(a: Seq<A>, b: Seq<A>) -> bool {
    exists|f: Seq<int>| embeds(f, a, b)
}

/// The elements of `q` that pass `keep`, in their order.
pub open spec fn keep_where<A>(q: Seq<A>, keep: spec_fn(A) -> bool) -> Seq<A>
    decreases q.len(),
{
    if q.len() == 0 {
        q
    } else if keep(q.last()) {
        keep_where(q.drop_last(), keep).push(q.last())
    } else {
        keep_where(q.drop_last(), keep)
    }
}

/// Every sequence is a subsequence of itself.
pub proof fn lemma_subsequence_refl<A>(a: Seq<A>)
    ensures
        is_subsequence(a, a),
{
    let f = Seq::new(a.len(), |i: int| i);
    assert(embeds(f, a, a));
}

/// A subsequence of a subsequence is a subsequence.
pub proof fn lemma_subsequence_trans<A>(a: Seq<A>, b: Seq<A>, c: Seq<A>)
    requires
        is_subsequence(a, b),
        is_subsequence(b, c),
    ensures
        is_subsequence(a, c),
{
    let f = choose|f: Seq<int>| embeds(f, a, b);
    let g = choose|g: Seq<int>| embeds(g, b, c);
    let h = Seq::new(a.len(), |i: int| g[f[i]]);
    assert forall|i: int, j: int| 0 <= i < j < a.len() implies #[trigger] h[i] < #[trigger] h[j] by {
        assert(f[i] < f[j]);
    }
    assert forall|i: int| 0 <= i < a.len() implies 0 <= #[trigger] h[i] < c.len() && a[i] == c[h[i]] by {
        assert(0 <= f[i] < b.len());
    }
    assert(embeds(h, a, c));
}

/// An element of a subsequence is an element of the larger sequence.
pub proof fn lemma_subsequence_contains<A>(a: Seq<A>, b: Seq<A>, i: int)
    requires
        is_subsequence(a, b),
        0 <= i < a.len(),
    ensures
        b.contains(a[i]),
{
    let f = choose|f: Seq<int>| embeds(f, a, b);
    assert(b[f[i]] == a[i]);
}

/// `keep_where` gives a subsequence that holds each passing element as often
/// as `q` does, and no other element.
pub proof fn lemma_keep_where<A>(q: Seq<A>, keep: spec_fn(A) -> bool)
    ensures
        is_subsequence(keep_where(q, keep), q),
        forall|x: A|
            #[trigger] keep_where(q, keep).to_multiset().count(x) == if keep(x) {
                q.to_multiset().count(x)
            } else {
                0
            },
        forall|x: A| #[trigger] keep_where(q, keep).contains(x) <==> (q.contains(x) && keep(x)),
    decreases q.len(),
{
    if q.len() == 0 {
        lemma_subsequence_refl(q);
        assert forall|x: A| #[trigger] keep_where(q, keep).to_multiset().count(x) == if keep(x) {
            q.to_multiset().count(x)
        } else {
            0
        } by {
            vstd::seq_lib::to_multiset_len(q);
        }
    } else {
        let d = q.drop_last();
        let r = keep_where(d, keep);
        lemma_keep_where(d, keep);
        assert(q == d.push(q.last()));
        vstd::seq_lib::to_multiset_build(d, q.last());
        let f = choose|f: Seq<int>| embeds(f, r, d);
        if keep(q.last()) {
            let f2 = f.push(q.len() - 1);
            let r2 = r.push(q.last());
            assert(embeds(f2, r2, q)) by {
                assert forall|i: int| 0 <= i < r2.len() implies 0 <= #[trigger] f2[i] < q.len() && r2[i] == q[f2[i]] by {
                    if i < r.len() {
                        assert(f2[i] == f[i]);
                        assert(d[f[i]] == q[f[i]]);
                    }
                }
                assert forall|i: int, j: int| 0 <= i < j < r2.len() implies #[trigger] f2[i] < #[trigger] f2[j] by {
                    if j < r.len() {
                        assert(f[i] < f[j]);
                    } else {
                        assert(0 <= f[i] < d.len());
                    }
                }
            }
            vstd::seq_lib::to_multiset_build(r, q.last());
        } else {
            assert(embeds(f, r, q)) by {
                assert forall|i: int| 0 <= i < r.len() implies 0 <= #[trigger] f[i] < q.len() && r[i] == q[f[i]] by {
                    assert(d[f[i]] == q[f[i]]);
                }
            }
        }
        let k = keep_where(q, keep);
        assert forall|x: A| #[trigger] k.contains(x) <==> (q.contains(x) && keep(x)) by {
            vstd::seq_lib::to_multiset_contains(k, x);
            vstd::seq_lib::to_multiset_contains(q, x);
        }
    }
}

/// `keep_where` of a concatenation is the concatenation of `keep_where`s.
pub proof fn lemma_keep_where_append<A>(a: Seq<A>, b: Seq<A>, keep: spec_fn(A) -> bool)
    ensures
        keep_where(a + b, keep) == keep_where(a, keep) + keep_where(b, keep),
    decreases b.len(),
{
    if b.len() == 0 {
        assert(a + b =~= a);
        assert(keep_where(a, keep) + keep_where(b, keep) =~= keep_where(a, keep));
    } else {
        lemma_keep_where_append(a, b.drop_last(), keep);
        assert((a + b).drop_last() =~= a + b.drop_last());
        assert((a + b).last() == b.last());
        if keep(b.last()) {
            assert(keep_where(a, keep) + keep_where(b.drop_last(), keep).push(b.last()) =~= (keep_where(a, keep)
                + keep_where(b.drop_last(), keep)).push(b.last()));
        }
    }
}

/// `keep_where` is empty when nothing passes.
pub proof fn lemma_keep_where_none<A>(a: Seq<A>, keep: spec_fn(A) -> bool)
    requires
        forall|i: int| 0 <= i < a.len() ==> !keep(#[trigger] a[i]),
    ensures
        keep_where(a, keep) == Seq::<A>::empty(),
    decreases a.len(),
{
    if a.len() > 0 {
        assert(!keep(a[a.len() - 1]));
        lemma_keep_where_none(a.drop_last(), keep);
    }
}

/// Two tests that agree on every element of `a` keep the same elements.
pub proof fn lemma_keep_where_same<A>(a: Seq<A>, f: spec_fn(A) -> bool, g: spec_fn(A) -> bool)
    requires
        forall|i: int| 0 <= i < a.len() ==> f(#[trigger] a[i]) == g(a[i]),
    ensures
        keep_where(a, f) == keep_where(a, g),
    decreases a.len(),
{
    if a.len() > 0 {
        assert(f(a[a.len() - 1]) == g(a[a.len() - 1]));
        let d = a.drop_last();
        assert forall|i: int| 0 <= i < d.len() implies f(#[trigger] d[i]) == g(d[i]) by {
            assert(d[i] == a[i]);
        }
        lemma_keep_where_same(d, f, g);
    }
}

} // verus!
