use vstd::prelude::*;

use crate::points::{dist2, DocModel};
use crate::search::{
    as_stored, dist_of, knn, lemma_knn_post, lemma_process_k_zero, sorted_by_distance,
    strip_all, with_distance,
};

verus! {

/// A search result is sorted ascending by distance and has length
/// `min(k, |s|)`, for every well-formed document sequence, query and k.
pub proof fn lemma_search_sorted(s: Seq<DocModel>, q: Seq<int>, k: nat)
    requires
        forall|i: int| 0 <= i < s.len() ==> (#[trigger] s[i]).distance is None,
    ensures
        sorted_by_distance(knn(s, q, k)),
        knn(s, q, k).len() == if k <= s.len() {
            k as int
        } else {
            s.len() as int
        },
{
    lemma_knn_post(s, q, k);
}

/// Searching with k = 0 yields the empty result for every index and query.
pub proof fn lemma_search_zero_k(s: Seq<DocModel>, q: Seq<int>)
    ensures
        knn(s, q, 0) == Seq::<DocModel>::empty(),
{
    lemma_process_k_zero(s, Seq::empty(), 0, s.len() as int, 0, q);
}

/// An index built from no documents answers every query, for every k, with
/// the empty result and no error.
pub proof fn lemma_search_empty_index(q: Seq<int>, k: nat)
    ensures
        knn(Seq::<DocModel>::empty(), q, k) == Seq::<DocModel>::empty(),
{
}

/// A query at distance zero from exactly one stored document is answered by
/// that document, first, with recorded distance zero, whenever no other
/// stored document coincides with it.
pub proof fn lemma_self_query_nearest(s: Seq<DocModel>, q: Seq<int>, p: DocModel)
    requires
        forall|i: int| 0 <= i < s.len() ==> (#[trigger] s[i]).distance is None,
        s.to_multiset().count(p) == 1,
        dist2(q, p.embeddings) == 0,
        forall|x: DocModel|
            #[trigger] s.to_multiset().count(x) > 0 && x != p ==> dist2(q, x.embeddings) > 0,
    ensures
        knn(s, q, 1).len() == 1,
        knn(s, q, 1)[0] == with_distance(p, 0),
{
    broadcast use vstd::seq_lib::group_to_multiset_ensures;

    lemma_knn_post(s, q, 1);
    let r = knn(s, q, 1);
    assert(s.to_multiset().contains(p));
    assert(s.contains(p));
    assert(s.len() >= 1);
    assert(r.len() == 1);
    let y = as_stored(r[0]);
    assert(strip_all(r) =~= seq![y]) by {
        assert(strip_all(r).len() == 1);
        assert(strip_all(r)[0] == as_stored(r[0]));
    }
    assert(strip_all(r).to_multiset().count(y) > 0) by {
        assert(strip_all(r)[0] == y);
        assert(strip_all(r).contains(y));
    }
    assert forall|z: DocModel| z != y implies strip_all(r).to_multiset().count(z) == 0 by {
        if strip_all(r).to_multiset().count(z) > 0 {
            assert(strip_all(r).contains(z));
        }
    }
    assert(r[0].distance == Some(dist2(q, r[0].embeddings)));
    assert(y.embeddings == r[0].embeddings);
    if y != p {
        assert(s.to_multiset().count(p) > strip_all(r).to_multiset().count(p));
        assert(dist2(q, p.embeddings) >= dist_of(r.last()));
        assert(dist_of(r[0]) <= 0);
        assert(strip_all(r).to_multiset().count(y) <= s.to_multiset().count(y));
        assert(s.to_multiset().count(y) > 0);
        assert(dist2(q, y.embeddings) > 0);
        assert(dist_of(r[0]) == dist2(q, y.embeddings));
        assert(false);
    }
    assert(r[0] =~= with_distance(p, 0));
}

} // verus!
