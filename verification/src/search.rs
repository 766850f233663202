use vstd::prelude::*;

use crate::points::{dist2, DocModel, DIM};
use vstd::multiset::Multiset;

verus! {

/// The distance recorded on a search candidate.
pub open spec fn dist_of(d: DocModel) -> int {
    match d.distance {
        Some(x) => x,
        None => 0,
    }
}

/// The document with its distance field set.
pub open spec fn with_distance(d: DocModel, dist: int) -> DocModel {
    DocModel { distance: Some(dist), ..d }
}

/// The document as it is stored in an index: distance unset.
pub open spec fn as_stored(d: DocModel) -> DocModel {
    DocModel { distance: None, ..d }
}

/// Every candidate with its distance field cleared.
pub open spec fn strip_all(s: Seq<DocModel>) -> Seq<DocModel> {
    s.map(|i: int, d: DocModel| as_stored(d))
}

/// Candidates ordered by non-decreasing recorded distance.
pub open spec fn sorted_by_distance(s: Seq<DocModel>) -> bool {
    forall|i: int, j: int|
        #![trigger s[i], s[j]]
        0 <= i <= j < s.len() ==> dist_of(s[i]) <= dist_of(s[j])
}

/// Insert a candidate into a distance-sorted sequence, after any candidate
/// with the same distance.
pub open spec fn insert_sorted(s: Seq<DocModel>, x: DocModel) -> Seq<DocModel>
    decreases s.len(),
{
    if s.len() == 0 {
        seq![x]
    } else if dist_of(s[0]) <= dist_of(x) {
        seq![s[0]] + insert_sorted(s.drop_first(), x)
    } else {
        seq![x] + s
    }
}

/// One step of the bounded best-k collection: insert while fewer than k
/// candidates are held, otherwise replace the worst candidate only when the
/// new distance is strictly smaller.
pub open spec fn bestk_step(s: Seq<DocModel>, x: DocModel, k: nat) -> Seq<DocModel> {
    if s.len() < k {
        insert_sorted(s, x)
    } else if k > 0 && dist_of(x) < dist_of(s.last()) {
        insert_sorted(s.drop_last(), x)
    } else {
        s
    }
}

/// The axis split on at a given tree depth.
pub open spec fn axis_of(depth: nat) -> int {
    (depth % (DIM as nat)) as int
}

/// The query lengths an index accepts: the fixed dimensionality, or the
/// coordinate-sequence length its documents share. Anything else is a
/// dimension mismatch.
pub open spec fn query_ok(s: Seq<DocModel>, q: Seq<int>) -> bool {
    q.len() == DIM || (s.len() > 0 && q.len() == s[0].embeddings.len())
}

/// Insert a document into an axis-sorted run, after any document with the
/// same key: the builder's sorting step.
pub open spec fn axis_insert(s: Seq<DocModel>, x: DocModel, a: int) -> Seq<DocModel>
    decreases s.len(),
{
    if s.len() == 0 {
        seq![x]
    } else if s[0].embeddings[a] <= x.embeddings[a] {
        seq![s[0]] + axis_insert(s.drop_first(), x, a)
    } else {
        seq![x] + s
    }
}

/// The builder's insertion sort along one axis, taking documents from the
/// back of the input.
pub open spec fn axis_sort(s: Seq<DocModel>, a: int) -> Seq<DocModel>
    decreases s.len(),
{
    if s.len() == 0 {
        Seq::empty()
    } else {
        axis_insert(axis_sort(s.drop_first(), a), s[0], a)
    }
}

/// The arena the builder produces: sort along this depth's axis, put the
/// median in the middle, build both halves one level deeper. Pins the built
/// index completely, ties included: identical documents yield an identical
/// arena.
pub open spec fn build_arena(s: Seq<DocModel>, depth: nat) -> Seq<DocModel>
    decreases s.len(),
    via build_arena_decreases
{
    if s.len() <= 1 {
        s
    } else {
        let t = axis_sort(s, axis_of(depth));
        let mid = s.len() as int / 2;
        build_arena(t.subrange(0, mid), depth + 1) + seq![t[mid]] + build_arena(
            t.subrange(mid + 1, s.len() as int),
            depth + 1,
        )
    }
}

#[via_fn]
proof fn build_arena_decreases(s: Seq<DocModel>, depth: nat) {
    if s.len() > 1 {
        lemma_axis_sort_len(s, axis_of(depth));
    }
}

/// Inserting one document grows the run by one.
pub proof fn lemma_axis_insert_len(s: Seq<DocModel>, x: DocModel, a: int)
    ensures
        axis_insert(s, x, a).len() == s.len() + 1,
    decreases s.len(),
{
    if s.len() == 0 {
    } else if s[0].embeddings[a] <= x.embeddings[a] {
        lemma_axis_insert_len(s.drop_first(), x, a);
    }
}

/// Sorting keeps the length.
pub proof fn lemma_axis_sort_len(s: Seq<DocModel>, a: int)
    ensures
        axis_sort(s, a).len() == s.len(),
    decreases s.len(),
{
    if s.len() > 0 {
        lemma_axis_sort_len(s.drop_first(), a);
        lemma_axis_insert_len(axis_sort(s.drop_first(), a), s[0], a);
    }
}

/// `axis_insert` places the document at the first position whose key along
/// the axis exceeds the new one.
pub proof fn lemma_axis_insert_at(s: Seq<DocModel>, x: DocModel, a: int, pos: int)
    requires
        0 <= pos <= s.len(),
        forall|i: int| 0 <= i < pos ==> (#[trigger] s[i]).embeddings[a] <= x.embeddings[a],
        pos < s.len() ==> s[pos].embeddings[a] > x.embeddings[a],
    ensures
        axis_insert(s, x, a) == s.insert(pos, x),
    decreases s.len(),
{
    if s.len() == 0 {
        assert(axis_insert(s, x, a) =~= s.insert(0, x));
    } else if pos == 0 {
        assert(s[0].embeddings[a] > x.embeddings[a]);
        assert(axis_insert(s, x, a) =~= s.insert(0, x));
    } else {
        assert(s[0].embeddings[a] <= x.embeddings[a]);
        let t = s.drop_first();
        assert(forall|i: int|
            0 <= i < pos - 1 ==> (#[trigger] t[i]).embeddings[a] <= x.embeddings[a]);
        lemma_axis_insert_at(t, x, a, pos - 1);
        assert(seq![s[0]] + t.insert(pos - 1, x) =~= s.insert(pos, x));
    }
}

/// Branch-and-bound traversal of the implicit balanced partition over
/// `s[lo..hi]`, folding every visited document into the best-k collection:
/// the node's document first, then the subtree on the query's side of the
/// splitting plane, then the far subtree.
pub open spec fn process(
    s: Seq<DocModel>,
    acc: Seq<DocModel>,
    lo: int,
    hi: int,
    depth: nat,
    q: Seq<int>,
    k: nat,
) -> Seq<DocModel>
    decreases hi - lo,
{
    if hi <= lo {
        acc
    } else {
        let mid = lo + (hi - lo) / 2;
        let a = axis_of(depth);
        let acc1 = bestk_step(acc, with_distance(s[mid], dist2(q, s[mid].embeddings)), k);
        if q[a] <= s[mid].embeddings[a] {
            let acc2 = process(s, acc1, lo, mid, depth + 1, q, k);
            process(s, acc2, mid + 1, hi, depth + 1, q, k)
        } else {
            let acc2 = process(s, acc1, mid + 1, hi, depth + 1, q, k);
            process(s, acc2, lo, mid, depth + 1, q, k)
        }
    }
}

/// The k nearest neighbors of `q` in the documents `s`, with recorded
/// distances, nearest first.
pub open spec fn knn(s: Seq<DocModel>, q: Seq<int>, k: nat) -> Seq<DocModel> {
    process(s, Seq::empty(), 0, s.len() as int, 0, q, k)
}

/// What a search result is: `min(k, |s|)` candidates sorted by distance,
/// each a stored document annotated with its true distance to `q`, drawn
/// from `s` without double-counting, and no omitted document closer than the
/// worst returned one.
pub open spec fn knn_post(s: Seq<DocModel>, q: Seq<int>, k: nat, r: Seq<DocModel>) -> bool {
    &&& r.len() == if k <= s.len() {
        k as int
    } else {
        s.len() as int
    }
    &&& sorted_by_distance(r)
    &&& forall|i: int|
        0 <= i < r.len() ==> (#[trigger] r[i]).distance == Some(dist2(q, r[i].embeddings))
    &&& strip_all(r).to_multiset().subset_of(s.to_multiset())
    &&& forall|x: DocModel|
        #[trigger] s.to_multiset().count(x) > strip_all(r).to_multiset().count(x) ==> r.len()
            == k as int && (r.len() > 0 ==> dist2(q, x.embeddings) >= dist_of(r.last()))
}

/// Invariant of the best-k collection while a multiset of documents has been
/// seen so far.
pub open spec fn bestk_inv(q: Seq<int>, k: nat, seen: Multiset<DocModel>, acc: Seq<DocModel>) -> bool {
    &&& acc.len() == if k <= seen.len() {
        k as int
    } else {
        seen.len() as int
    }
    &&& sorted_by_distance(acc)
    &&& forall|i: int|
        0 <= i < acc.len() ==> (#[trigger] acc[i]).distance == Some(dist2(q, acc[i].embeddings))
    &&& strip_all(acc).to_multiset().subset_of(seen)
    &&& forall|x: DocModel|
        #[trigger] seen.count(x) > strip_all(acc).to_multiset().count(x) ==> acc.len() == k as int
            && (k > 0 ==> dist2(q, x.embeddings) >= dist_of(acc.last()))
}

/// Well-formedness of the working best-k collection: bounded by k, sorted,
/// and every recorded distance is the true distance to the query.
pub open spec fn acc_wf(s: Seq<DocModel>, q: Seq<int>, k: nat) -> bool {
    &&& s.len() <= k
    &&& sorted_by_distance(s)
    &&& forall|i: int|
        0 <= i < s.len() ==> (#[trigger] s[i]).distance == Some(dist2(q, s[i].embeddings))
}

/// `insert_sorted` places the candidate at the first position whose
/// recorded distance exceeds the new one.
pub proof fn lemma_insert_sorted_at(s: Seq<DocModel>, x: DocModel, pos: int)
    requires
        sorted_by_distance(s),
        0 <= pos <= s.len(),
        forall|i: int| 0 <= i < pos ==> dist_of(#[trigger] s[i]) <= dist_of(x),
        pos < s.len() ==> dist_of(s[pos]) > dist_of(x),
    ensures
        insert_sorted(s, x) == s.insert(pos, x),
    decreases s.len(),
{
    if s.len() == 0 {
        assert(insert_sorted(s, x) =~= s.insert(0, x));
    } else if pos == 0 {
        assert(dist_of(s[0]) > dist_of(x));
        assert(insert_sorted(s, x) =~= s.insert(0, x));
    } else {
        assert(dist_of(s[0]) <= dist_of(x));
        let t = s.drop_first();
        assert(forall|i: int| 0 <= i < pos - 1 ==> dist_of(#[trigger] t[i]) <= dist_of(x));
        lemma_insert_sorted_at(t, x, pos - 1);
        assert(seq![s[0]] + t.insert(pos - 1, x) =~= s.insert(pos, x));
    }
}

/// Shape of an `insert_sorted` result: one longer, still sorted, ending in
/// the larger of the old maximum and the new candidate, and equal to an
/// index insertion.
pub proof fn lemma_insert_sorted_props(s: Seq<DocModel>, x: DocModel)
    requires
        sorted_by_distance(s),
    ensures
        insert_sorted(s, x).len() == s.len() + 1,
        sorted_by_distance(insert_sorted(s, x)),
        exists|pos: int|
            0 <= pos <= s.len() && insert_sorted(s, x) == #[trigger] s.insert(pos, x),
        s.len() == 0 ==> insert_sorted(s, x).last() == x,
        s.len() > 0 && dist_of(x) >= dist_of(s.last()) ==> insert_sorted(s, x).last() == x,
        s.len() > 0 && dist_of(x) < dist_of(s.last()) ==> insert_sorted(s, x).last() == s.last(),
    decreases s.len(),
{
    let r = insert_sorted(s, x);
    if s.len() == 0 {
        lemma_insert_sorted_at(s, x, 0);
        s.insert_ensures(0, x);
        assert(r == s.insert(0, x));
    } else {
        // Find the insertion position: the first index whose distance
        // exceeds dist_of(x).
        let pos = choose_pos(s, x, 0);
        lemma_insert_sorted_at(s, x, pos);
        s.insert_ensures(pos, x);
        assert(r == s.insert(pos, x));
        assert forall|i: int, j: int|
            #![trigger r[i], r[j]]
            0 <= i <= j < r.len() implies dist_of(r[i]) <= dist_of(r[j]) by {
            let iv = if i < pos {
                dist_of(s[i])
            } else if i == pos {
                dist_of(x)
            } else {
                dist_of(s[i - 1])
            };
            assert(dist_of(r[i]) == iv);
        }
        if dist_of(x) >= dist_of(s.last()) {
            assert(pos == s.len());
            assert(r.last() == x);
        } else {
            assert(pos < s.len());
            assert(r.last() == s[s.len() - 1]);
        }
    }
}

/// The first position in a sorted sequence (from `at` on) whose distance
/// exceeds the candidate's, with the properties `lemma_insert_sorted_at`
/// needs.
proof fn choose_pos(s: Seq<DocModel>, x: DocModel, at: int) -> (pos: int)
    requires
        sorted_by_distance(s),
        0 <= at <= s.len(),
        forall|i: int| 0 <= i < at ==> dist_of(#[trigger] s[i]) <= dist_of(x),
    ensures
        at <= pos <= s.len(),
        forall|i: int| 0 <= i < pos ==> dist_of(#[trigger] s[i]) <= dist_of(x),
        pos < s.len() ==> dist_of(s[pos]) > dist_of(x),
    decreases s.len() - at,
{
    if at == s.len() {
        at
    } else if dist_of(s[at]) > dist_of(x) {
        at
    } else {
        choose_pos(s, x, at + 1)
    }
}

/// Processing documents no closer than the worst of a full collection
/// leaves the collection unchanged.
pub proof fn lemma_process_unchanged(
    s: Seq<DocModel>,
    acc: Seq<DocModel>,
    lo: int,
    hi: int,
    depth: nat,
    q: Seq<int>,
    k: nat,
)
    requires
        k >= 1,
        acc.len() == k as int,
        forall|i: int|
            lo <= i < hi && i < s.len() ==> #[trigger] dist2(q, s[i].embeddings) >= dist_of(
                acc.last(),
            ),
        hi <= s.len(),
    ensures
        process(s, acc, lo, hi, depth, q, k) == acc,
    decreases hi - lo,
{
    if hi <= lo {
    } else {
        let mid = lo + (hi - lo) / 2;
        let x = with_distance(s[mid], dist2(q, s[mid].embeddings));
        assert(bestk_step(acc, x, k) == acc);
        lemma_process_unchanged(s, acc, lo, mid, depth + 1, q, k);
        lemma_process_unchanged(s, acc, mid + 1, hi, depth + 1, q, k);
    }
}

/// One best-k step keeps the collection invariant while the stored document
/// joins the seen multiset.
pub proof fn lemma_bestk_step_inv(
    q: Seq<int>,
    k: nat,
    seen: Multiset<DocModel>,
    acc: Seq<DocModel>,
    x: DocModel,
)
    requires
        bestk_inv(q, k, seen, acc),
        x.distance is None,
    ensures
        bestk_inv(
            q,
            k,
            seen.insert(x),
            bestk_step(acc, with_distance(x, dist2(q, x.embeddings)), k),
        ),
{
    broadcast use vstd::seq_lib::group_to_multiset_ensures;
    broadcast use vstd::multiset::group_multiset_properties;

    let d = dist2(q, x.embeddings);
    let xd = with_distance(x, d);
    assert(as_stored(xd) =~= x);
    let seen2 = seen.insert(x);
    let r = bestk_step(acc, xd, k);
    let sa = strip_all(acc).to_multiset();
    if acc.len() < k {
        lemma_insert_sorted_props(acc, xd);
        let pos = choose|pos: int| 0 <= pos <= acc.len() && r == #[trigger] acc.insert(pos, xd);
        acc.insert_ensures(pos, xd);
        assert(strip_all(r) =~= strip_all(acc).insert(pos, x));
        assert(strip_all(r).to_multiset() == sa.insert(x));
        // Below k the collection holds everything seen, count for count.
        assert forall|y: DocModel| seen.count(y) == sa.count(y) by {
            assert(sa.count(y) <= seen.count(y));
            if seen.count(y) > sa.count(y) {
                assert(acc.len() == k as int);
            }
        }
        assert forall|i: int|
            0 <= i < r.len() implies (#[trigger] r[i]).distance == Some(
            dist2(q, r[i].embeddings),
        ) by {
            if i < pos {
                assert(r[i] == acc[i]);
            } else if i == pos {
                assert(r[i] == xd);
            } else {
                assert(r[i] == acc[i - 1]);
            }
        }
        assert(bestk_inv(q, k, seen2, r));
    } else if k > 0 && d < dist_of(acc.last()) {
        let worst = dist_of(acc.last());
        let sl = as_stored(acc.last());
        let n = acc.len();
        let t = acc.drop_last();
        assert(t =~= acc.remove(n - 1));
        acc.remove_ensures(n - 1);
        assert(strip_all(t) =~= strip_all(acc).remove(n - 1));
        assert(strip_all(acc)[n - 1] == sl);
        assert(strip_all(t).to_multiset() == sa.remove(sl));
        assert(sorted_by_distance(t)) by {
            assert forall|i: int, j: int|
                #![trigger t[i], t[j]]
                0 <= i <= j < t.len() implies dist_of(t[i]) <= dist_of(t[j]) by {
                assert(t[i] == acc[i]);
                assert(t[j] == acc[j]);
            }
        }
        lemma_insert_sorted_props(t, xd);
        let pos = choose|pos: int| 0 <= pos <= t.len() && r == #[trigger] t.insert(pos, xd);
        t.insert_ensures(pos, xd);
        assert(strip_all(r) =~= strip_all(t).insert(pos, x));
        assert(strip_all(r).to_multiset() == sa.remove(sl).insert(x));
        // The recorded distance of the dropped worst candidate is its true
        // distance, and the new worst is no larger than the old one.
        assert(acc.last().distance == Some(dist2(q, acc.last().embeddings)));
        assert(sl.embeddings == acc.last().embeddings);
        assert(dist2(q, sl.embeddings) == worst);
        if t.len() > 0 {
            assert(t.last() == acc[n - 2]);
            assert(dist_of(t.last()) <= worst);
            assert(dist_of(r.last()) <= worst);
        } else {
            assert(r.last() == xd);
        }
        assert(dist_of(r.last()) <= worst);
        assert forall|i: int|
            0 <= i < r.len() implies (#[trigger] r[i]).distance == Some(
            dist2(q, r[i].embeddings),
        ) by {
            if i < pos {
                assert(r[i] == t[i] && t[i] == acc[i]);
            } else if i == pos {
                assert(r[i] == xd);
            } else {
                assert(r[i] == t[i - 1] && t[i - 1] == acc[i - 1]);
            }
        }
        assert(sa.count(sl) > 0) by {
            assert(strip_all(acc)[n - 1] == sl);
            assert(strip_all(acc).contains(sl));
        }
        assert(strip_all(r).to_multiset().subset_of(seen2)) by {
            assert forall|y: DocModel|
                strip_all(r).to_multiset().count(y) <= seen2.count(y) by {
                assert(sa.count(y) <= seen.count(y));
            }
        }
        assert forall|y: DocModel|
            seen2.count(y) > strip_all(r).to_multiset().count(y) implies r.len() == k as int && (
        k > 0 ==> #[trigger] dist2(q, y.embeddings) >= dist_of(r.last())) by {
            if y == x {
                // x was already missing before this step, so its distance
                // already exceeded the old worst: impossible since d < worst.
                assert(strip_all(r).to_multiset().count(y) == sa.count(y) + 1 - (
                if y == sl {
                    1int
                } else {
                    0int
                }));
                if y == sl {
                    assert(dist2(q, y.embeddings) == worst);
                    assert(seen.count(y) > sa.count(y) - 1 ==> true);
                    assert(dist2(q, y.embeddings) >= dist_of(r.last()));
                } else {
                    assert(seen.count(y) > sa.count(y));
                    assert(dist2(q, y.embeddings) >= worst);
                    assert(false);
                }
            } else if y == sl {
                assert(dist2(q, y.embeddings) == worst);
                assert(dist2(q, y.embeddings) >= dist_of(r.last()));
            } else {
                assert(seen.count(y) > sa.count(y));
                assert(dist2(q, y.embeddings) >= worst);
                assert(dist2(q, y.embeddings) >= dist_of(r.last()));
            }
        }
        assert(bestk_inv(q, k, seen2, r));
    } else {
        // Full and no closer than the worst: the collection is unchanged.
        assert(r == acc);
        assert(acc.len() == k as int);
        assert forall|y: DocModel|
            seen2.count(y) > sa.count(y) implies acc.len() == k as int && (k > 0
            ==> #[trigger] dist2(q, y.embeddings) >= dist_of(acc.last())) by {
            if y == x {
                if k > 0 {
                    assert(d >= dist_of(acc.last()));
                }
            } else {
                assert(seen.count(y) > sa.count(y));
            }
        }
        assert(bestk_inv(q, k, seen2, r));
    }
}

/// Traversing a whole subrange folds exactly its documents into the seen
/// multiset and keeps the collection invariant.
pub proof fn lemma_process_inv(
    s: Seq<DocModel>,
    acc: Seq<DocModel>,
    lo: int,
    hi: int,
    depth: nat,
    q: Seq<int>,
    k: nat,
    seen: Multiset<DocModel>,
)
    requires
        0 <= lo <= hi <= s.len(),
        forall|i: int| lo <= i < hi ==> (#[trigger] s[i]).distance is None,
        bestk_inv(q, k, seen, acc),
    ensures
        bestk_inv(
            q,
            k,
            seen.add(s.subrange(lo, hi).to_multiset()),
            process(s, acc, lo, hi, depth, q, k),
        ),
    decreases hi - lo,
{
    broadcast use vstd::seq_lib::group_to_multiset_ensures;
    broadcast use vstd::multiset::group_multiset_properties;

    let range_ms = s.subrange(lo, hi).to_multiset();
    if hi <= lo {
        assert(s.subrange(lo, hi) =~= Seq::<DocModel>::empty());
        assert forall|y: DocModel| #[trigger] range_ms.count(y) == 0 by {
            if range_ms.count(y) > 0 {
                assert(s.subrange(lo, hi).contains(y));
            }
        }
        assert(seen.add(range_ms) =~= seen);
    } else {
        let mid = lo + (hi - lo) / 2;
        let x = s[mid];
        let acc1 = bestk_step(acc, with_distance(x, dist2(q, x.embeddings)), k);
        lemma_bestk_step_inv(q, k, seen, acc, x);
        let seen1 = seen.insert(x);
        let left_ms = s.subrange(lo, mid).to_multiset();
        let right_ms = s.subrange(mid + 1, hi).to_multiset();
        if q[axis_of(depth)] <= s[mid].embeddings[axis_of(depth)] {
            let acc2 = process(s, acc1, lo, mid, depth + 1, q, k);
            lemma_process_inv(s, acc1, lo, mid, depth + 1, q, k, seen1);
            lemma_process_inv(s, acc2, mid + 1, hi, depth + 1, q, k, seen1.add(left_ms));
        } else {
            let acc2 = process(s, acc1, mid + 1, hi, depth + 1, q, k);
            lemma_process_inv(s, acc1, mid + 1, hi, depth + 1, q, k, seen1);
            lemma_process_inv(s, acc2, lo, mid, depth + 1, q, k, seen1.add(right_ms));
        }
        assert(s.subrange(lo, hi) =~= s.subrange(lo, mid) + seq![x] + s.subrange(mid + 1, hi));
        vstd::seq_lib::lemma_multiset_commutative(s.subrange(lo, mid) + seq![x], s.subrange(mid + 1, hi));
        vstd::seq_lib::lemma_multiset_commutative(s.subrange(lo, mid), seq![x]);
        assert(seq![x] =~= Seq::<DocModel>::empty().push(x));
        assert(seq![x].to_multiset() =~= Multiset::<DocModel>::empty().insert(x)) by {
            assert(Seq::<DocModel>::empty().push(x).to_multiset() =~= Seq::<
                DocModel,
            >::empty().to_multiset().insert(x));
            assert forall|y: DocModel|
                #[trigger] Seq::<DocModel>::empty().to_multiset().count(y) == 0 by {
                if Seq::<DocModel>::empty().to_multiset().count(y) > 0 {
                    assert(Seq::<DocModel>::empty().contains(y));
                }
            }
            assert(Seq::<DocModel>::empty().to_multiset() =~= Multiset::<DocModel>::empty());
        }
        assert(seen1.add(left_ms).add(right_ms) =~= seen.add(range_ms));
        assert(seen1.add(right_ms).add(left_ms) =~= seen.add(range_ms));
    }
}

/// The traversal of the whole document sequence meets the search
/// postcondition.
pub proof fn lemma_knn_post(s: Seq<DocModel>, q: Seq<int>, k: nat)
    requires
        forall|i: int| 0 <= i < s.len() ==> (#[trigger] s[i]).distance is None,
    ensures
        knn_post(s, q, k, knn(s, q, k)),
{
    broadcast use vstd::seq_lib::group_to_multiset_ensures;
    broadcast use vstd::multiset::group_multiset_properties;

    let empty_acc = Seq::<DocModel>::empty();
    let empty_ms = Multiset::<DocModel>::empty();
    assert(strip_all(empty_acc) =~= Seq::<DocModel>::empty());
    assert forall|y: DocModel| #[trigger] empty_acc.to_multiset().count(y) == 0 by {
        if empty_acc.to_multiset().count(y) > 0 {
            assert(empty_acc.contains(y));
        }
    }
    assert(empty_acc.to_multiset() =~= empty_ms);
    assert(bestk_inv(q, k, empty_ms, empty_acc));
    lemma_process_inv(s, empty_acc, 0, s.len() as int, 0, q, k, empty_ms);
    assert(s.subrange(0, s.len() as int) =~= s);
    assert(empty_ms.add(s.to_multiset()) =~= s.to_multiset());
    let r = knn(s, q, k);
    assert(bestk_inv(q, k, s.to_multiset(), r));
    assert(s.to_multiset().len() == s.len());
    assert(knn_post(s, q, k, r));
}

/// With k = 0 the collection stays empty: nothing is ever inserted.
pub proof fn lemma_process_k_zero(
    s: Seq<DocModel>,
    acc: Seq<DocModel>,
    lo: int,
    hi: int,
    depth: nat,
    q: Seq<int>,
)
    ensures
        process(s, acc, lo, hi, depth, q, 0) == acc,
    decreases hi - lo,
{
    if hi <= lo {
    } else {
        let mid = lo + (hi - lo) / 2;
        let x = with_distance(s[mid], dist2(q, s[mid].embeddings));
        assert(bestk_step(acc, x, 0) == acc);
        lemma_process_k_zero(s, acc, lo, mid, depth + 1, q);
        lemma_process_k_zero(s, acc, mid + 1, hi, depth + 1, q);
    }
}

} // verus!
