use vstd::prelude::*;

use crate::points::{
    consistent_dims, coords, dist2, distance_squared, docs_wf, lemma_dist2_axis_lower,
    lemma_sq_le, lemma_sq_sym, sq, DocModel, EmbeddedDocument, Query, SearchError, DIM,
};
use crate::points::views_of;
use crate::search::{
    acc_wf, as_stored, axis_insert, axis_of, axis_sort, bestk_step, build_arena, dist_of,
    insert_sorted, knn, knn_post, lemma_axis_insert_at, lemma_axis_sort_len,
    lemma_insert_sorted_at, lemma_insert_sorted_props, lemma_knn_post, lemma_process_k_zero,
    lemma_process_unchanged, process, query_ok, sorted_by_distance, strip_all, with_distance,
};
verus! {

broadcast use
    crate::points::lemma_coords_index,
    crate::points::lemma_coords_len,
    crate::points::lemma_views_of_index,
    crate::points::lemma_views_of_len,
;

/// The documents in `s[lo..hi]` form a valid spatial partition for a node at
/// the given depth: the median along the depth's axis stands at the middle,
/// every document left of it is no greater along that axis, every document
/// right of it no smaller, and both halves are partitions one level deeper.
pub open spec fn kd_wf(s: Seq<DocModel>, lo: int, hi: int, depth: nat) -> bool
    decreases hi - lo,
{
    if hi - lo <= 1 {
        true
    } else {
        let mid = lo + (hi - lo) / 2;
        let a = axis_of(depth);
        (forall|i: int|
            lo <= i < mid ==> (#[trigger] s[i]).embeddings[a] <= s[mid].embeddings[a]) && (forall|
            i: int,
        |
            mid < i < hi ==> s[mid].embeddings[a] <= (#[trigger] s[i]).embeddings[a]) && kd_wf(
            s,
            lo,
            mid,
            depth + 1,
        ) && kd_wf(s, mid + 1, hi, depth + 1)
    }
}

/// The documents in `s`, ordered along one axis.
pub open spec fn sorted_on_axis(s: Seq<DocModel>, a: int) -> bool {
    forall|i: int, j: int|
        #![trigger s[i], s[j]]
        0 <= i <= j < s.len() ==> s[i].embeddings[a] <= s[j].embeddings[a]
}

/// Every document has at least the fixed number of coordinate axes.
spec fn lens_ok(s: Seq<EmbeddedDocument>) -> bool {
    forall|i: int| 0 <= i < s.len() ==> (#[trigger] s[i]).embeddings@.len() >= DIM
}

/// An immutable balanced spatial partition over a set of documents, held as
/// a flat arena: the tree structure is implicit in the order (the node of any
/// subrange is its middle element), so the flat document sequence is a
/// faithful, round-trippable encoding of the whole tree.
pub struct Index {
    items: Vec<EmbeddedDocument>,
}

impl View for Index {
    type V = Seq<DocModel>;

    closed spec fn view(&self) -> Seq<DocModel> {
        views_of(self.items@)
    }
}

impl Index {
    /// The stored documents are well formed and kd-ordered.
    pub closed spec fn wf(&self) -> bool {
        docs_wf(self@) && kd_wf(self@, 0, self@.len() as int, 0)
    }

    /// What well-formedness guarantees: the documents are well formed and
    /// their order is a valid spatial partition, so the flat arena of
    /// `to_points` is always accepted back by `from_points`.
    pub proof fn lemma_wf_parts(&self)
        requires
            self.wf(),
        ensures
            docs_wf(self@),
            kd_wf(self@, 0, self@.len() as int, 0),
    {
    }

    /// Number of documents held.
    pub fn len(&self) -> (n: usize)
        ensures
            n == self@.len(),
    {
        self.items.len()
    }

    /// The flat arena, node before subtree contents: the serializable form
    /// of the index. `from_points` accepts exactly these sequences back.
    #[verifier::loop_isolation(false)]
    pub fn to_points(&self) -> (r: Vec<EmbeddedDocument>)
        ensures
            views_of(r@) == self@,
    {
        let mut r: Vec<EmbeddedDocument> = Vec::new();
        let mut i: usize = 0;
        while i < self.items.len()
            invariant
                i <= self.items@.len(),
                r@.len() == i,
                forall|j: int| 0 <= j < i ==> (#[trigger] r@[j])@ == self.items@[j]@,
            decreases self.items@.len() - i,
        {
            let d = clone_doc(&self.items[i]);
            r.push(d);
            i += 1;
        }
        proof {
            assert(views_of(r@) =~= views_of(self.items@)) by {
                assert forall|j: int| 0 <= j < r@.len() implies views_of(r@)[j] == views_of(
                    self.items@,
                )[j] by {
                    assert(r@[j]@ == self.items@[j]@);
                }
            }
        }
        r
    }

    /// Rebuild an index from a flat arena, validating it completely: the
    /// documents must be well formed and their order a valid spatial
    /// partition. Accepts exactly what `to_points` produces.
    #[verifier::loop_isolation(false)]
    pub fn from_points(points: Vec<EmbeddedDocument>) -> (r: Result<Index, SearchError>)
        ensures
            ({
                let v = views_of(points@);
                match r {
                    Ok(idx) => docs_wf(v) && kd_wf(v, 0, v.len() as int, 0) && idx@ == v
                        && idx.wf(),
                    Err(e) => e == SearchError::DeserializationError && !(docs_wf(v) && kd_wf(
                        v,
                        0,
                        v.len() as int,
                        0,
                    )),
                }
            }),
    {
        let ghost v = views_of(points@);
        let n = points.len();
        if n > 0 {
            let l0 = points[0].embeddings.len();
            let mut i: usize = 0;
            while i < n
                invariant
                    i <= n,
                    n == points@.len(),
                    n > 0,
                    l0 == points@[0].embeddings@.len(),
                    forall|j: int|
                        0 <= j < i ==> (#[trigger] points@[j]).embeddings@.len() == l0 && points@[
                            j
                        ].distance is None,
                decreases n - i,
            {
                if points[i].embeddings.len() != l0 {
                    proof {
                        assert(v[i as int].embeddings.len() != v[0].embeddings.len());
                        assert(!consistent_dims(v));
                    }
                    return Err(SearchError::DeserializationError);
                }
                let has_dist = match points[i].distance {
                    Some(_) => true,
                    None => false,
                };
                if has_dist {
                    proof {
                        assert(v[i as int].distance is Some);
                        assert(!docs_wf(v));
                    }
                    return Err(SearchError::DeserializationError);
                }
                i += 1;
            }
            if l0 < DIM {
                proof {
                    assert(v[0].embeddings.len() < DIM);
                    assert(!docs_wf(v));
                }
                return Err(SearchError::DeserializationError);
            }
            proof {
                assert forall|j: int|
                    0 <= j < v.len() implies (#[trigger] v[j]).embeddings.len() == l0 && v[
                    j
                ].distance is None by {
                    assert(points@[j].embeddings@.len() == l0 && points@[j].distance is None);
                    assert(v[j] == points@[j]@);
                }
                assert(consistent_dims(v)) by {
                    assert forall|a: int, b: int|
                        #![trigger v[a].embeddings, v[b].embeddings]
                        0 <= a < v.len() && 0 <= b < v.len() implies v[a].embeddings.len() == v[
                        b
                    ].embeddings.len() by {
                        assert(v[a].embeddings.len() == l0);
                        assert(v[b].embeddings.len() == l0);
                    }
                }
                assert(docs_wf(v));
                assert(lens_ok(points@)) by {
                    assert forall|j: int|
                        0 <= j < points@.len() implies (#[trigger] points@[j]).embeddings@.len()
                        >= DIM by {}
                }
            }
        } else {
            proof {
                assert(v.len() == 0);
                assert(docs_wf(v));
            }
        }
        if !check_kd(&points, 0, n, 0) {
            return Err(SearchError::DeserializationError);
        }
        Ok(Index { items: points })
    }
}

/// Copy a coordinate vector.
#[verifier::loop_isolation(false)]
fn clone_coords(v: &Vec<i32>) -> (r: Vec<i32>)
    ensures
        r@ == v@,
{
    let mut r: Vec<i32> = Vec::new();
    let mut i: usize = 0;
    while i < v.len()
        invariant
            i <= v@.len(),
            r@.len() == i,
            forall|j: int| 0 <= j < i ==> r@[j] == v@[j],
        decreases v@.len() - i,
    {
        r.push(v[i]);
        i += 1;
    }
    proof {
        assert(r@ =~= v@);
    }
    r
}

/// Copy a document.
fn clone_doc(d: &EmbeddedDocument) -> (r: EmbeddedDocument)
    ensures
        r@ == d@,
{
    let e = clone_coords(&d.embeddings);
    let r = EmbeddedDocument { id: d.id, embeddings: e, distance: d.distance };
    proof {
        assert(r@ =~= d@);
    }
    r
}

/// Whatever holds of every document of one sequence holds of every document
/// of any rearrangement of it.
proof fn lemma_ms_pointwise(s1: Seq<DocModel>, s2: Seq<DocModel>, p: spec_fn(DocModel) -> bool)
    requires
        s1.to_multiset() == s2.to_multiset(),
        forall|i: int| 0 <= i < s1.len() ==> p(#[trigger] s1[i]),
    ensures
        forall|i: int| 0 <= i < s2.len() ==> p(#[trigger] s2[i]),
{
    broadcast use vstd::seq_lib::group_to_multiset_ensures;

    assert forall|i: int| 0 <= i < s2.len() implies p(s2[i]) by {
        assert(s2.contains(s2[i]));
        assert(s2.to_multiset().count(s2[i]) > 0);
        assert(s1.to_multiset().count(s2[i]) > 0);
        assert(s1.contains(s2[i]));
        let j = choose|j: int| 0 <= j < s1.len() && s1[j] == s2[i];
        assert(p(s1[j]));
    }
}

/// A valid partition of a standalone sequence is a valid partition of the
/// same documents embedded at an offset inside a larger sequence.
proof fn lemma_kd_embed(
    sub: Seq<DocModel>,
    whole: Seq<DocModel>,
    off: int,
    lo: int,
    hi: int,
    depth: nat,
)
    requires
        0 <= off,
        0 <= lo <= hi <= sub.len(),
        off + sub.len() <= whole.len(),
        forall|i: int| 0 <= i < sub.len() ==> whole[off + i] == #[trigger] sub[i],
        kd_wf(sub, lo, hi, depth),
    ensures
        kd_wf(whole, off + lo, off + hi, depth),
    decreases hi - lo,
{
    if hi - lo <= 1 {
    } else {
        let mid = lo + (hi - lo) / 2;
        let a = axis_of(depth);
        lemma_kd_embed(sub, whole, off, lo, mid, depth + 1);
        lemma_kd_embed(sub, whole, off, mid + 1, hi, depth + 1);
        assert forall|i: int|
            off + lo <= i < off + mid implies (#[trigger] whole[i]).embeddings[a] <= whole[off
            + mid].embeddings[a] by {
            assert(sub[i - off] == whole[i]);
            assert(sub[mid] == whole[off + mid]);
        }
        assert forall|i: int|
            off + mid < i < off + hi implies whole[off + mid].embeddings[a] <= (
        #[trigger] whole[i]).embeddings[a] by {
            assert(sub[i - off] == whole[i]);
            assert(sub[mid] == whole[off + mid]);
        }
    }
}

/// Insert a document into an axis-sorted run, keeping it sorted.
#[verifier::rlimit(50)]
#[verifier::loop_isolation(false)]
fn insert_by_axis(out: &mut Vec<EmbeddedDocument>, x: EmbeddedDocument, axis: usize)
    requires
        axis < DIM,
        x.embeddings@.len() >= DIM,
        lens_ok(old(out)@),
        sorted_on_axis(views_of(old(out)@), axis as int),
    ensures
        final(out)@.len() == old(out)@.len() + 1,
        views_of(final(out)@).to_multiset() == views_of(old(out)@).to_multiset().insert(x@),
        sorted_on_axis(views_of(final(out)@), axis as int),
        lens_ok(final(out)@),
        views_of(final(out)@) == axis_insert(views_of(old(out)@), x@, axis as int),
{
    broadcast use vstd::seq_lib::group_to_multiset_ensures;

    let ghost ov = views_of(old(out)@);
    let key = x.embeddings[axis];
    let mut pos: usize = 0;
    while pos < out.len() && out[pos].embeddings[axis] <= key
        invariant
            out@ == old(out)@,
            lens_ok(out@),
            pos <= out@.len(),
            axis < DIM,
            key == x.embeddings@[axis as int],
            forall|j: int|
                0 <= j < pos ==> (#[trigger] out@[j]).embeddings@[axis as int] <= key,
        decreases out@.len() - pos,
    {
        pos += 1;
    }
    let ghost posg = pos as int;
    let ghost stopped = pos < out.len();
    proof {
        if stopped {
            assert(out@[posg].embeddings@[axis as int] > key);
        }
    }
    out.insert(pos, x);
    proof {
        let a = axis as int;
        let kv = x@.embeddings[a];
        assert(kv == key as int);
        old(out)@.insert_ensures(posg, x);
        ov.insert_ensures(posg, x@);
        let w = views_of(out@);
        assert(w =~= ov.insert(posg, x@)) by {
            assert forall|i: int| 0 <= i < w.len() implies w[i] == ov.insert(posg, x@)[i] by {
                if i < posg {
                    assert(out@[i] == old(out)@[i]);
                    assert(ov[i] == old(out)@[i]@);
                } else if i == posg {
                    assert(out@[i] == x);
                } else {
                    assert(out@[i] == old(out)@[i - 1]);
                    assert(ov[i - 1] == old(out)@[i - 1]@);
                }
            }
        }
        assert(views_of(out@).to_multiset() == ov.to_multiset().insert(x@));
        assert(lens_ok(out@)) by {
            assert forall|i: int|
                0 <= i < out@.len() implies (#[trigger] out@[i]).embeddings@.len() >= DIM by {
                if i < posg {
                    assert(out@[i] == old(out)@[i]);
                } else if i == posg {
                    assert(out@[i] == x);
                } else {
                    assert(out@[i] == old(out)@[i - 1]);
                }
            }
        }
        // the scanned prefix is at most the key, the stop point above it
        assert forall|j: int| 0 <= j < posg implies (#[trigger] ov[j]).embeddings[a] <= kv by {
            assert(ov[j] == old(out)@[j]@);
            assert(old(out)@[j].embeddings@[a] <= key);
        }
        if stopped {
            assert(ov[posg].embeddings[a] > kv) by {
                assert(ov[posg] == old(out)@[posg]@);
            }
        }
        assert(sorted_on_axis(w, a)) by {
            assert forall|i: int, j: int|
                #![trigger w[i], w[j]]
                0 <= i <= j < w.len() implies w[i].embeddings[a] <= w[j].embeddings[a] by {
                if i == posg && j == posg {
                } else if i < posg && j == posg {
                    assert(w[i] == ov[i]);
                } else if i == posg && j > posg {
                    assert(w[j] == ov[j - 1]);
                    assert(j - 1 >= posg);
                    assert(ov[posg].embeddings[a] <= ov[j - 1].embeddings[a]);
                } else if i < posg && j > posg {
                    assert(w[i] == ov[i] && w[j] == ov[j - 1]);
                } else if j < posg {
                    assert(w[i] == ov[i] && w[j] == ov[j]);
                } else {
                    assert(i > posg && j > posg);
                    assert(w[i] == ov[i - 1] && w[j] == ov[j - 1]);
                }
            }
        }
        lemma_axis_insert_at(ov, x@, a, posg);
        assert(w == axis_insert(ov, x@, a));
    }
}

/// Build the arena: sort the documents along this depth's axis, place the
/// median in the middle, and recursively build both halves one level deeper.
#[verifier::rlimit(80)]
#[verifier::loop_isolation(false)]
fn build_rec(points: Vec<EmbeddedDocument>, depth: usize) -> (r: Vec<EmbeddedDocument>)
    requires
        depth + points@.len() <= usize::MAX,
        lens_ok(points@),
    ensures
        r@.len() == points@.len(),
        views_of(r@).to_multiset() == views_of(points@).to_multiset(),
        kd_wf(views_of(r@), 0, r@.len() as int, depth as nat),
        lens_ok(r@),
        views_of(r@) == build_arena(views_of(points@), depth as nat),
    decreases points@.len(),
{
    broadcast use vstd::seq_lib::group_to_multiset_ensures;
    broadcast use vstd::multiset::group_multiset_properties;

    let ghost orig = views_of(points@);
    if points.len() <= 1 {
        proof {
            assert(orig.len() == points@.len());
            assert(build_arena(orig, depth as nat) == orig);
        }
        return points;
    }
    let axis = depth % DIM;
    proof {
        assert(axis as int == axis_of(depth as nat));
    }
    let mut rest = points;
    let mut run: Vec<EmbeddedDocument> = Vec::new();
    proof {
        assert(views_of(rest@) == orig);
        assert(orig.subrange(0, rest@.len() as int) =~= orig);
        assert(views_of(run@) =~= Seq::<DocModel>::empty());
        assert(orig.subrange(rest@.len() as int, orig.len() as int) =~= Seq::<DocModel>::empty());
    }
    while rest.len() > 0
        invariant
            axis < DIM,
            views_of(run@).to_multiset().add(views_of(rest@).to_multiset()) == orig.to_multiset(),
            sorted_on_axis(views_of(run@), axis as int),
            run@.len() + rest@.len() == orig.len(),
            lens_ok(run@),
            lens_ok(rest@),
            views_of(rest@) == orig.subrange(0, rest@.len() as int),
            views_of(run@) == axis_sort(
                orig.subrange(rest@.len() as int, orig.len() as int),
                axis as int,
            ),
        decreases rest@.len(),
    {
        let ghost pre = rest@;
        let ghost rv = views_of(rest@);
        let ghost runv = views_of(run@);
        let last = rest.len() - 1;
        let x = rest.remove(last);
        proof {
            assert(x == pre[last as int]);
            assert(x@ == rv[last as int]);
            assert(rest@ == pre.remove(last as int));
            pre.remove_ensures(last as int);
            rv.remove_ensures(last as int);
            assert(views_of(rest@) =~= rv.remove(last as int)) by {
                assert forall|i: int|
                    0 <= i < views_of(rest@).len() implies views_of(rest@)[i] == rv.remove(
                    last as int,
                )[i] by {
                    assert(rest@[i] == pre[i]);
                    assert(rv[i] == pre[i]@);
                }
            }
            assert(rv.remove(last as int).to_multiset() == rv.to_multiset().remove(x@));
            assert(rv.to_multiset().count(x@) > 0) by {
                assert(rv.contains(x@));
            }
            assert(lens_ok(rest@)) by {
                assert forall|i: int|
                    0 <= i < rest@.len() implies (#[trigger] rest@[i]).embeddings@.len() >= DIM by {
                    assert(rest@[i] == pre[i]);
                }
            }
            assert(x.embeddings@.len() >= DIM) by {
                assert(pre[last as int].embeddings@.len() >= DIM);
            }
        }
        insert_by_axis(&mut run, x, axis);
        proof {
            assert(views_of(run@).to_multiset().add(views_of(rest@).to_multiset())
                =~= orig.to_multiset()) by {
                assert(views_of(run@).to_multiset() == runv.to_multiset().insert(x@));
                assert(views_of(rest@).to_multiset() == rv.to_multiset().remove(x@));
            }
            let m = pre.len() as int;
            let nn = orig.len() as int;
            assert(views_of(rest@) =~= orig.subrange(0, m - 1)) by {
                assert forall|i: int|
                    0 <= i < views_of(rest@).len() implies views_of(rest@)[i] == orig.subrange(
                    0,
                    m - 1,
                )[i] by {
                    assert(rest@[i] == pre[i]);
                    assert(rv[i] == pre[i]@);
                    assert(rv == orig.subrange(0, m));
                }
            }
            assert(views_of(run@) == axis_sort(orig.subrange(m - 1, nn), axis as int)) by {
                let u = orig.subrange(m - 1, nn);
                assert(u.len() == nn - m + 1);
                assert(u[0] == orig[m - 1]);
                assert(x@ == orig[m - 1]) by {
                    assert(x@ == rv[m - 1]);
                    assert(rv == orig.subrange(0, m));
                }
                assert(u.drop_first() =~= orig.subrange(m, nn));
                assert(views_of(run@) == axis_insert(runv, x@, axis as int));
                assert(runv == axis_sort(orig.subrange(m, nn), axis as int));
                assert(axis_sort(u, axis as int) == axis_insert(
                    axis_sort(u.drop_first(), axis as int),
                    u[0],
                    axis as int,
                ));
            }
        }
    }
    let ghost sv = views_of(run@);
    let ghost s_ed = run@;
    proof {
        assert forall|y: DocModel| #[trigger] views_of(rest@).to_multiset().count(y) == 0 by {
            if views_of(rest@).to_multiset().count(y) > 0 {
                assert(views_of(rest@).contains(y));
            }
        }
        assert(sv.to_multiset() =~= orig.to_multiset());
        assert(sv.to_multiset().len() == orig.to_multiset().len());
        assert(sv.len() == orig.len());
        assert(orig.subrange(0, orig.len() as int) =~= orig);
        assert(sv == axis_sort(orig, axis as int));
    }
    let n = run.len();
    let mid = n / 2;
    let mut right = run.split_off(mid + 1);
    let median = run.remove(mid);
    let left = run;
    proof {
        assert(left@ =~= s_ed.subrange(0, mid as int)) by {
            s_ed.subrange(0, mid as int + 1).remove_ensures(mid as int);
        }
        assert(right@ == s_ed.subrange(mid as int + 1, n as int));
        assert(median == s_ed.subrange(0, mid as int + 1)[mid as int]);
        assert(median == s_ed[mid as int]);
        assert(median@ == sv[mid as int]);
        assert(lens_ok(left@)) by {
            assert forall|i: int|
                0 <= i < left@.len() implies (#[trigger] left@[i]).embeddings@.len() >= DIM by {
                assert(left@[i] == s_ed[i]);
            }
        }
        assert(lens_ok(right@)) by {
            assert forall|i: int|
                0 <= i < right@.len() implies (#[trigger] right@[i]).embeddings@.len() >= DIM by {
                assert(right@[i] == s_ed[mid as int + 1 + i]);
            }
        }
        assert(views_of(left@) =~= sv.subrange(0, mid as int)) by {
            assert forall|i: int|
                0 <= i < views_of(left@).len() implies views_of(left@)[i] == sv.subrange(
                0,
                mid as int,
            )[i] by {
                assert(left@[i] == s_ed[i]);
                assert(sv[i] == s_ed[i]@);
            }
        }
        assert(views_of(right@) =~= sv.subrange(mid as int + 1, n as int)) by {
            assert forall|i: int|
                0 <= i < views_of(right@).len() implies views_of(right@)[i] == sv.subrange(
                mid as int + 1,
                n as int,
            )[i] by {
                assert(right@[i] == s_ed[mid as int + 1 + i]);
                assert(sv[mid as int + 1 + i] == s_ed[mid as int + 1 + i]@);
            }
        }
    }
    let left_b = build_rec(left, depth + 1);
    let mut right_b = build_rec(right, depth + 1);
    let ghost lbe = left_b@;
    let ghost rbe = right_b@;
    let ghost lb = views_of(left_b@);
    let ghost rb = views_of(right_b@);
    let mut out = left_b;
    out.push(median);
    out.append(&mut right_b);
    proof {
        let w = views_of(out@);
        let a = axis_of(depth as nat);
        let lv = sv.subrange(0, mid as int);
        let rv = sv.subrange(mid as int + 1, n as int);
        assert(out@.len() == n);
        assert(w =~= lb + seq![median@] + rb) by {
            assert forall|i: int| 0 <= i < w.len() implies w[i] == (lb + seq![median@] + rb)[i] by {
                if i < mid {
                    assert(out@[i] == lbe[i]);
                    assert(lb[i] == lbe[i]@);
                } else if i == mid {
                    assert(out@[i] == median);
                } else {
                    assert(out@[i] == rbe[i - mid - 1]);
                    assert(rb[i - mid - 1] == rbe[i - mid - 1]@);
                }
            }
        }
        assert(sv =~= lv + seq![median@] + rv);
        vstd::seq_lib::lemma_multiset_commutative(lb + seq![median@], rb);
        vstd::seq_lib::lemma_multiset_commutative(lb, seq![median@]);
        vstd::seq_lib::lemma_multiset_commutative(lv + seq![median@], rv);
        vstd::seq_lib::lemma_multiset_commutative(lv, seq![median@]);
        assert(w.to_multiset() =~= orig.to_multiset());
        assert(lens_ok(out@)) by {
            assert forall|i: int|
                0 <= i < out@.len() implies (#[trigger] out@[i]).embeddings@.len() >= DIM by {
                if i < mid {
                    assert(out@[i] == lbe[i]);
                    assert(lb[i] == lbe[i]@);
                } else if i == mid {
                    assert(out@[i] == median);
                    assert(median == s_ed[mid as int]);
                } else {
                    assert(out@[i] == rbe[i - mid - 1]);
                    assert(rb[i - mid - 1] == rbe[i - mid - 1]@);
                }
            }
        }
        // the median bounds both halves along this axis
        let medkey = sv[mid as int].embeddings[a];
        assert forall|j: int| 0 <= j < lv.len() implies (#[trigger] lv[j]).embeddings[a]
            <= medkey by {
            assert(lv[j] == sv[j]);
            assert(sv[j].embeddings[a] <= sv[mid as int].embeddings[a]);
        }
        lemma_ms_pointwise(lv, lb, |d: DocModel| d.embeddings[a] <= medkey);
        assert forall|j: int| 0 <= j < rv.len() implies medkey <= (#[trigger] rv[j]).embeddings[
            a
        ] by {
            assert(rv[j] == sv[mid as int + 1 + j]);
            assert(sv[mid as int].embeddings[a] <= sv[mid as int + 1 + j].embeddings[a]);
        }
        lemma_ms_pointwise(rv, rb, |d: DocModel| medkey <= d.embeddings[a]);
        assert forall|i: int| 0 <= i < mid implies (#[trigger] w[i]).embeddings[a] <= w[
            mid as int
        ].embeddings[a] by {
            assert(w[i] == lb[i]);
            assert((|d: DocModel| d.embeddings[a] <= medkey)(lb[i]));
            assert(w[mid as int] == median@);
        }
        assert forall|i: int| mid < i < n implies w[mid as int].embeddings[a] <= (
        #[trigger] w[i]).embeddings[a] by {
            assert(w[i] == rb[i - mid - 1]);
            assert((|d: DocModel| medkey <= d.embeddings[a])(rb[i - mid - 1]));
            assert(w[mid as int] == median@);
        }
        assert forall|i: int| 0 <= i < lb.len() implies w[0 + i] == #[trigger] lb[i] by {}
        assert forall|i: int| 0 <= i < rb.len() implies w[mid as int + 1 + i] == #[trigger] rb[
            i
        ] by {}
        lemma_kd_embed(lb, w, 0, 0, lb.len() as int, depth as nat + 1);
        lemma_kd_embed(rb, w, mid as int + 1, 0, rb.len() as int, depth as nat + 1);
        assert(kd_wf(w, 0, n as int, depth as nat)) by {
            assert(n >= 2);
            assert(0 + (n as int - 0) / 2 == mid as int);
            assert(kd_wf(w, 0, mid as int, depth as nat + 1));
            assert(kd_wf(w, mid as int + 1, n as int, depth as nat + 1));
        }
        assert(w == build_arena(orig, depth as nat)) by {
            assert(axis_of(depth as nat) == a);
            assert(sv == axis_sort(orig, a));
            assert(orig.len() == n);
            assert(orig.len() as int / 2 == mid as int);
            assert(lb == build_arena(lv, depth as nat + 1));
            assert(rb == build_arena(rv, depth as nat + 1));
            assert(w == lb + seq![median@] + rb);
            assert(median@ == sv[mid as int]);
        }
    }
    out
}

/// Build an immutable spatial index over the given documents. Incoming
/// distance values are discarded: every stored document has its distance
/// unset. Fails fast instead of truncating or padding: the documents must
/// share one coordinate-sequence length, and that length must reach the
/// fixed dimensionality.
#[verifier::rlimit(50)]
#[verifier::loop_isolation(false)]
pub fn create_index(input: Vec<EmbeddedDocument>) -> (r: Result<Index, SearchError>)
    ensures
        ({
            let v = views_of(input@);
            match r {
                Ok(idx) => consistent_dims(v) && (v.len() > 0 ==> v[0].embeddings.len() >= DIM)
                    && idx.wf() && docs_wf(idx@) && idx@.len() == v.len() && idx@.to_multiset()
                    == strip_all(v).to_multiset() && idx@ == build_arena(strip_all(v), 0),
                Err(SearchError::DimensionMismatch) => !consistent_dims(v),
                Err(SearchError::InvalidInput) => consistent_dims(v) && v.len() > 0 && v[
                    0
                ].embeddings.len() < DIM,
                Err(SearchError::DeserializationError) => false,
            }
        }),
{
    let ghost v = views_of(input@);
    let n = input.len();
    if n == 0 {
        let idx = Index { items: Vec::new() };
        proof {
            assert(idx@ =~= Seq::<DocModel>::empty());
            assert(strip_all(v) =~= Seq::<DocModel>::empty());
            assert(docs_wf(idx@));
            assert(build_arena(strip_all(v), 0) == strip_all(v));
        }
        return Ok(idx);
    }
    let l0 = input[0].embeddings.len();
    let mut i: usize = 0;
    while i < n
        invariant
            i <= n,
            n == input@.len(),
            n > 0,
            l0 == input@[0].embeddings@.len(),
            forall|j: int| 0 <= j < i ==> (#[trigger] input@[j]).embeddings@.len() == l0,
        decreases n - i,
    {
        if input[i].embeddings.len() != l0 {
            proof {
                assert(v[i as int].embeddings.len() != v[0].embeddings.len());
                assert(!consistent_dims(v));
            }
            return Err(SearchError::DimensionMismatch);
        }
        i += 1;
    }
    proof {
        assert(consistent_dims(v)) by {
            assert forall|a: int, b: int|
                #![trigger v[a].embeddings, v[b].embeddings]
                0 <= a < v.len() && 0 <= b < v.len() implies v[a].embeddings.len() == v[
                b
            ].embeddings.len() by {
                assert(input@[a].embeddings@.len() == l0);
                assert(input@[b].embeddings@.len() == l0);
                assert(v[a] == input@[a]@);
                assert(v[b] == input@[b]@);
            }
        }
    }
    if l0 < DIM {
        proof {
            assert(v[0].embeddings.len() < DIM);
        }
        return Err(SearchError::InvalidInput);
    }
    let mut data: Vec<EmbeddedDocument> = Vec::new();
    let mut i: usize = 0;
    while i < n
        invariant
            i <= n,
            n == input@.len(),
            data@.len() == i,
            l0 >= DIM,
            forall|j: int| 0 <= j < n ==> (#[trigger] input@[j]).embeddings@.len() == l0,
            forall|j: int|
                0 <= j < i ==> (#[trigger] data@[j])@ == as_stored(input@[j]@) && data@[
                    j
                ].embeddings@.len() == l0,
        decreases n - i,
    {
        let d = &input[i];
        let e = clone_coords(&d.embeddings);
        data.push(EmbeddedDocument { id: d.id, embeddings: e, distance: None });
        proof {
            assert(data@[i as int]@ =~= as_stored(input@[i as int]@));
        }
        i += 1;
    }
    proof {
        assert(views_of(data@) =~= strip_all(v)) by {
            assert forall|j: int|
                0 <= j < views_of(data@).len() implies views_of(data@)[j] == strip_all(v)[j] by {
                assert(data@[j]@ == as_stored(input@[j]@));
                assert(v[j] == input@[j]@);
                assert(strip_all(v)[j] == as_stored(v[j]));
            }
        }
        assert(lens_ok(data@)) by {
            assert forall|j: int|
                0 <= j < data@.len() implies (#[trigger] data@[j]).embeddings@.len() >= DIM by {}
        }
    }
    let built = build_rec(data, 0);
    proof {
        let b = views_of(built@);
        assert(b.to_multiset() == strip_all(v).to_multiset());
        assert(b == build_arena(strip_all(v), 0)) by {
            assert(b == build_arena(views_of(data@), 0));
            assert(views_of(data@) == strip_all(v));
        }
        assert forall|j: int|
            0 <= j < strip_all(v).len() implies (|d: DocModel|
            d.embeddings.len() == l0 && d.distance is None)(#[trigger] strip_all(v)[j]) by {
            assert(strip_all(v)[j] == as_stored(v[j]));
            assert(v[j] == input@[j]@);
            assert(input@[j].embeddings@.len() == l0);
        }
        lemma_ms_pointwise(
            strip_all(v),
            b,
            |d: DocModel| d.embeddings.len() == l0 && d.distance is None,
        );
        assert(docs_wf(b)) by {
            assert forall|i2: int|
                0 <= i2 < b.len() implies (#[trigger] b[i2]).embeddings.len() >= DIM && b[
                i2
            ].distance is None by {
                assert((|d: DocModel| d.embeddings.len() == l0 && d.distance is None)(b[i2]));
            }
            assert forall|a2: int, b2: int|
                #![trigger b[a2].embeddings, b[b2].embeddings]
                0 <= a2 < b.len() && 0 <= b2 < b.len() implies b[a2].embeddings.len() == b[
                b2
            ].embeddings.len() by {
                assert((|d: DocModel| d.embeddings.len() == l0 && d.distance is None)(b[a2]));
                assert((|d: DocModel| d.embeddings.len() == l0 && d.distance is None)(b[b2]));
            }
        }
        assert(v.len() > 0 ==> v[0].embeddings.len() >= DIM) by {
            assert(v[0] == input@[0]@);
        }
    }
    Ok(Index { items: built })
}

/// True when the candidate's recorded distance is at most `d`.
fn dist_le(doc: &EmbeddedDocument, d: u128) -> (b: bool)
    requires
        doc@.distance is Some,
    ensures
        b == (dist_of(doc@) <= d),
{
    match doc.distance {
        Some(dd) => dd <= d,
        None => false,
    }
}

/// Fold one stored document into the best-k collection: compute its
/// distance to the query and insert or replace per the bounded best-k rule.
#[verifier::loop_isolation(false)]
#[verifier::rlimit(80)]
fn consider(acc: &mut Vec<EmbeddedDocument>, node: &EmbeddedDocument, q: &Vec<i32>, k: usize)
    requires
        k >= 1,
        q@.len() >= DIM,
        node.embeddings@.len() >= DIM,
        node@.distance is None,
        acc_wf(views_of(old(acc)@), coords(q@), k as nat),
    ensures
        views_of(final(acc)@) == bestk_step(
            views_of(old(acc)@),
            with_distance(node@, dist2(coords(q@), node@.embeddings)),
            k as nat,
        ),
        acc_wf(views_of(final(acc)@), coords(q@), k as nat),
{
    let ghost ov = views_of(old(acc)@);
    let ghost qv = coords(q@);
    let d = distance_squared(q, &node.embeddings);
    let ghost dd = dist2(qv, node@.embeddings);
    proof {
        assert(d as int == dd);
    }
    let e = clone_coords(&node.embeddings);
    let entry = EmbeddedDocument { id: node.id, embeddings: e, distance: Some(d) };
    let ghost xd = with_distance(node@, dd);
    proof {
        assert(entry@ =~= xd);
        assert(dist_of(xd) == dd);
        assert forall|j: int|
            0 <= j < acc@.len() implies (#[trigger] acc@[j])@.distance is Some by {
            assert(ov[j] == acc@[j]@);
            assert(ov[j].distance == Some(dist2(qv, ov[j].embeddings)));
        }
    }
    let mut pos: usize = 0;
    while pos < acc.len() && dist_le(&acc[pos], d)
        invariant
            acc@ == old(acc)@,
            pos <= acc@.len(),
            forall|j: int| 0 <= j < acc@.len() ==> (#[trigger] acc@[j])@.distance is Some,
            forall|j: int| 0 <= j < pos ==> dist_of(#[trigger] ov[j]) <= d,
        decreases acc@.len() - pos,
    {
        proof {
            assert(ov[pos as int] == acc@[pos as int]@);
        }
        pos += 1;
    }
    let ghost posg = pos as int;
    proof {
        if pos < acc.len() {
            assert(ov[posg] == acc@[posg]@);
            assert(dist_of(ov[posg]) > d);
        }
    }
    if acc.len() < k {
        let ghost pre = acc@;
        acc.insert(pos, entry);
        proof {
            pre.insert_ensures(posg, entry);
            ov.insert_ensures(posg, xd);
            let w = views_of(acc@);
            assert(w =~= ov.insert(posg, xd)) by {
                assert forall|i: int| 0 <= i < w.len() implies w[i] == ov.insert(posg, xd)[i] by {
                    if i < posg {
                        assert(acc@[i] == pre[i]);
                        assert(ov[i] == pre[i]@);
                    } else if i == posg {
                        assert(acc@[i] == entry);
                    } else {
                        assert(acc@[i] == pre[i - 1]);
                        assert(ov[i - 1] == pre[i - 1]@);
                    }
                }
            }
            lemma_insert_sorted_at(ov, xd, posg);
            lemma_insert_sorted_props(ov, xd);
            assert(w == bestk_step(ov, xd, k as nat));
            assert forall|i: int|
                0 <= i < w.len() implies (#[trigger] w[i]).distance == Some(
                dist2(qv, w[i].embeddings),
            ) by {
                assert(w == ov.insert(posg, xd));
                if i < posg {
                    assert(w[i] == ov[i]);
                } else if i == posg {
                    assert(w[i] == xd);
                } else {
                    assert(w[i] == ov[i - 1]);
                }
            }
        }
    } else {
        proof {
            assert(acc@.len() == k);
        }
        let wd = match acc[acc.len() - 1].distance {
            Some(w) => w,
            None => 0,
        };
        proof {
            assert(acc@[acc@.len() - 1]@ == ov[ov.len() - 1]);
            assert(ov.last().distance == Some(dist2(qv, ov.last().embeddings)));
            assert(wd as int == dist_of(ov.last()));
        }
        if d < wd {
            let ghost pre = acc@;
            let _ = acc.pop();
            let ghost t = ov.drop_last();
            proof {
                assert(posg <= pre.len() - 1) by {
                    if posg == pre.len() {
                        assert(dist_of(ov[pre.len() - 1]) <= d);
                        assert(false);
                    }
                }
                assert(views_of(acc@) =~= t) by {
                    assert forall|i: int|
                        0 <= i < views_of(acc@).len() implies views_of(acc@)[i] == t[i] by {
                        assert(acc@[i] == pre[i]);
                        assert(ov[i] == pre[i]@);
                    }
                }
                assert(sorted_by_distance(t)) by {
                    assert forall|i: int, j: int|
                        #![trigger t[i], t[j]]
                        0 <= i <= j < t.len() implies dist_of(t[i]) <= dist_of(t[j]) by {
                        assert(t[i] == ov[i]);
                        assert(t[j] == ov[j]);
                    }
                }
            }
            let ghost pre2 = acc@;
            acc.insert(pos, entry);
            proof {
                pre2.insert_ensures(posg, entry);
                t.insert_ensures(posg, xd);
                let w = views_of(acc@);
                assert(w =~= t.insert(posg, xd)) by {
                    assert forall|i: int| 0 <= i < w.len() implies w[i] == t.insert(posg, xd)[i] by {
                        if i < posg {
                            assert(acc@[i] == pre2[i]);
                            assert(t[i] == pre2[i]@);
                        } else if i == posg {
                            assert(acc@[i] == entry);
                        } else {
                            assert(acc@[i] == pre2[i - 1]);
                            assert(t[i - 1] == pre2[i - 1]@);
                        }
                    }
                }
                assert forall|i: int| 0 <= i < posg implies dist_of(#[trigger] t[i]) <= dist_of(
                    xd,
                ) by {
                    assert(t[i] == ov[i]);
                }
                lemma_insert_sorted_at(t, xd, posg);
                lemma_insert_sorted_props(t, xd);
                assert(w == insert_sorted(t, xd));
                assert(dist_of(xd) < dist_of(ov.last()));
                assert(w == bestk_step(ov, xd, k as nat));
                assert forall|i: int|
                    0 <= i < w.len() implies (#[trigger] w[i]).distance == Some(
                    dist2(qv, w[i].embeddings),
                ) by {
                    assert(w == t.insert(posg, xd));
                    if i < posg {
                        assert(w[i] == t[i] && t[i] == ov[i]);
                    } else if i == posg {
                        assert(w[i] == xd);
                    } else {
                        assert(w[i] == t[i - 1] && t[i - 1] == ov[i - 1]);
                    }
                }
            }
        } else {
            proof {
                assert(dist_of(xd) >= dist_of(ov.last()));
                assert(views_of(acc@) == bestk_step(ov, xd, k as nat));
            }
        }
    }
}

/// Branch-and-bound search over `items[lo..hi]`: fold in the node, descend
/// the near side first, and skip the far side when no document there can
/// beat the current worst candidate.
#[verifier::loop_isolation(false)]
#[verifier::rlimit(100)]
fn search_rec(
    items: &Vec<EmbeddedDocument>,
    lo: usize,
    hi: usize,
    depth: usize,
    q: &Vec<i32>,
    k: usize,
    acc: &mut Vec<EmbeddedDocument>,
)
    requires
        lo <= hi <= items@.len(),
        depth + (hi - lo) <= usize::MAX,
        k >= 1,
        q@.len() >= DIM,
        docs_wf(views_of(items@)),
        kd_wf(views_of(items@), lo as int, hi as int, depth as nat),
        acc_wf(views_of(old(acc)@), coords(q@), k as nat),
    ensures
        views_of(final(acc)@) == process(
            views_of(items@),
            views_of(old(acc)@),
            lo as int,
            hi as int,
            depth as nat,
            coords(q@),
            k as nat,
        ),
        acc_wf(views_of(final(acc)@), coords(q@), k as nat),
    decreases hi - lo,
{
    let ghost s = views_of(items@);
    let ghost qv = coords(q@);
    let ghost ov = views_of(old(acc)@);
    if hi - lo == 0 {
        return;
    }
    let mid = lo + (hi - lo) / 2;
    let axis = depth % DIM;
    proof {
        assert(axis as int == axis_of(depth as nat));
        assert(s[mid as int] == items@[mid as int]@);
        assert(s[mid as int].embeddings.len() >= DIM);
        assert(s[mid as int].distance is None);
        assert(kd_wf(s, lo as int, mid as int, depth as nat + 1));
        assert(kd_wf(s, mid as int + 1, hi as int, depth as nat + 1));
    }
    let node = &items[mid];
    consider(acc, node, q, k);
    let ghost acc1 = views_of(acc@);
    proof {
        assert(node@ == s[mid as int]);
        assert(acc1 == bestk_step(
            ov,
            with_distance(s[mid as int], dist2(qv, s[mid as int].embeddings)),
            k as nat,
        ));
    }
    let qa = q[axis];
    let na = node.embeddings[axis];
    let near_left = qa <= na;
    proof {
        assert(qa as int == qv[axis as int]);
        assert(na as int == s[mid as int].embeddings[axis as int]);
        assert(near_left == (qv[axis as int] <= s[mid as int].embeddings[axis as int]));
    }
    if near_left {
        search_rec(items, lo, mid, depth + 1, q, k, acc);
        let ghost acc2 = views_of(acc@);
        let go_far: bool;
        let ghost plane: int;
        if acc.len() < k {
            go_far = true;
            proof {
                plane = 0;
            }
        } else {
            proof {
                assert(views_of(acc@)[acc@.len() - 1] == acc@[acc@.len() - 1]@);
                assert(acc2.last().distance == Some(dist2(qv, acc2.last().embeddings)));
            }
            let dq = (qa as i64) - (na as i64);
            proof {
                assert(-0x1_0000_0000 <= dq <= 0x1_0000_0000);
                assert(0 <= dq * dq <= 0x1_0000_0000_0000_0000) by (nonlinear_arith)
                    requires
                        -0x1_0000_0000 <= dq <= 0x1_0000_0000,
                ;
            }
            let pd = (dq as i128) * (dq as i128);
            let wd = match acc[acc.len() - 1].distance {
                Some(w) => w,
                None => 0,
            };
            go_far = (pd as u128) < wd;
            proof {
                plane = sq(qv[axis as int] - s[mid as int].embeddings[axis as int]);
                assert(wd as int == dist_of(acc2.last()));
                assert(pd as int == plane);
                assert(!go_far ==> plane >= dist_of(acc2.last()));
                assert(acc2.len() == k);
            }
        }
        if go_far {
            search_rec(items, mid + 1, hi, depth + 1, q, k, acc);
        } else {
            proof {
                let a = axis as int;
                let worst = dist_of(acc2.last());
                assert forall|i: int|
                    mid as int + 1 <= i < hi as int && i < s.len() implies #[trigger] dist2(
                    qv,
                    s[i].embeddings,
                ) >= worst by {
                    assert(s[mid as int].embeddings[a] <= s[i].embeddings[a]);
                    lemma_sq_sym(qv[a], s[mid as int].embeddings[a]);
                    lemma_sq_le(
                        s[mid as int].embeddings[a] - qv[a],
                        s[i].embeddings[a] - qv[a],
                    );
                    lemma_dist2_axis_lower(qv, s[i].embeddings, a);
                }
                lemma_process_unchanged(
                    s,
                    acc2,
                    mid as int + 1,
                    hi as int,
                    depth as nat + 1,
                    qv,
                    k as nat,
                );
            }
        }
        proof {
            assert(views_of(acc@) == process(
                s,
                ov,
                lo as int,
                hi as int,
                depth as nat,
                qv,
                k as nat,
            ));
        }
    } else {
        search_rec(items, mid + 1, hi, depth + 1, q, k, acc);
        let ghost acc2 = views_of(acc@);
        let go_far: bool;
        if acc.len() < k {
            go_far = true;
        } else {
            proof {
                assert(views_of(acc@)[acc@.len() - 1] == acc@[acc@.len() - 1]@);
                assert(acc2.last().distance == Some(dist2(qv, acc2.last().embeddings)));
            }
            let dq = (qa as i64) - (na as i64);
            proof {
                assert(-0x1_0000_0000 <= dq <= 0x1_0000_0000);
                assert(0 <= dq * dq <= 0x1_0000_0000_0000_0000) by (nonlinear_arith)
                    requires
                        -0x1_0000_0000 <= dq <= 0x1_0000_0000,
                ;
            }
            let pd = (dq as i128) * (dq as i128);
            let wd = match acc[acc.len() - 1].distance {
                Some(w) => w,
                None => 0,
            };
            go_far = (pd as u128) < wd;
            proof {
                assert(wd as int == dist_of(acc2.last()));
                assert(pd as int == sq(qv[axis as int] - s[mid as int].embeddings[axis as int]));
                assert(acc2.len() == k);
            }
        }
        if go_far {
            search_rec(items, lo, mid, depth + 1, q, k, acc);
        } else {
            proof {
                let a = axis as int;
                let worst = dist_of(acc2.last());
                assert forall|i: int|
                    lo as int <= i < mid as int && i < s.len() implies #[trigger] dist2(
                    qv,
                    s[i].embeddings,
                ) >= worst by {
                    assert(s[i].embeddings[a] <= s[mid as int].embeddings[a]);
                    lemma_sq_sym(s[mid as int].embeddings[a], qv[a]);
                    lemma_sq_sym(s[i].embeddings[a], qv[a]);
                    lemma_sq_le(
                        qv[a] - s[mid as int].embeddings[a],
                        qv[a] - s[i].embeddings[a],
                    );
                    lemma_dist2_axis_lower(qv, s[i].embeddings, a);
                }
                lemma_process_unchanged(
                    s,
                    acc2,
                    lo as int,
                    mid as int,
                    depth as nat + 1,
                    qv,
                    k as nat,
                );
            }
        }
        proof {
            assert(views_of(acc@) == process(
                s,
                ov,
                lo as int,
                hi as int,
                depth as nat,
                qv,
                k as nat,
            ));
        }
    }
}

/// Search the index for the k nearest documents to the query: the result is
/// sorted nearest first, each document annotated with its squared distance
/// over the first `DIM` axes, and no stored document left out is closer
/// than any returned one. The result is a function of the index contents,
/// the query and k alone: repeated searches return identical results.
///
/// The documented degenerate cases come first and never fail: k = 0 and the
/// empty index answer every query with an empty result. Otherwise the query
/// must supply either the fixed dimensionality or the index's stored
/// coordinate-sequence length; any other length is a dimension mismatch,
/// never silently truncated or padded.
pub fn run_search(index: &Index, query: &Query, k: usize) -> (r: Result<
    Vec<EmbeddedDocument>,
    SearchError,
>)
    requires
        index.wf(),
    ensures
        ({
            let qv = query@;
            let s = index@;
            match r {
                Ok(out) => {
                    &&& views_of(out@) == knn(s, qv, k as nat)
                    &&& knn_post(s, qv, k as nat, views_of(out@))
                    &&& k > 0 && s.len() > 0 ==> query_ok(s, qv)
                },
                Err(e) => e == SearchError::DimensionMismatch && k > 0 && s.len() > 0
                    && !query_ok(s, qv),
            }
        }),
{
    let q = match query {
        Query::Embeddings(v) => v,
    };
    proof {
        assert(query@ == coords(q@));
    }
    let mut acc: Vec<EmbeddedDocument> = Vec::new();
    proof {
        assert(views_of(acc@) =~= Seq::<DocModel>::empty());
        assert forall|i: int|
            0 <= i < index@.len() implies (#[trigger] index@[i]).distance is None by {}
    }
    if k == 0 {
        proof {
            lemma_process_k_zero(index@, views_of(acc@), 0, index@.len() as int, 0, query@);
            assert(views_of(acc@) == knn(index@, query@, 0));
            lemma_knn_post(index@, query@, 0);
        }
        return Ok(acc);
    }
    let n = index.items.len();
    if n == 0 {
        proof {
            assert(index@.len() == 0);
            assert(knn(index@, query@, k as nat) == views_of(acc@));
            lemma_knn_post(index@, query@, k as nat);
        }
        return Ok(acc);
    }
    let stored = index.items[0].embeddings.len();
    proof {
        assert(index@[0] == index.items@[0]@);
        assert(stored == index@[0].embeddings.len());
        assert(index@[0].embeddings.len() >= DIM);
    }
    if !(q.len() == DIM || q.len() == stored) {
        proof {
            assert(!query_ok(index@, query@));
        }
        return Err(SearchError::DimensionMismatch);
    }
    proof {
        assert(q@.len() >= DIM);
        assert(query_ok(index@, query@));
        assert(acc_wf(views_of(acc@), coords(q@), k as nat));
    }
    search_rec(&index.items, 0, index.items.len(), 0, q, k, &mut acc);
    proof {
        assert(views_of(index.items@) == index@);
        assert(views_of(acc@) == knn(index@, coords(q@), k as nat));
        lemma_knn_post(index@, coords(q@), k as nat);
    }
    Ok(acc)
}

/// Check that a subrange of the arena is a valid spatial partition.
#[verifier::rlimit(50)]
#[verifier::loop_isolation(false)]
fn check_kd(items: &Vec<EmbeddedDocument>, lo: usize, hi: usize, depth: usize) -> (b: bool)
    requires
        lo <= hi <= items@.len(),
        depth + (hi - lo) <= usize::MAX,
        lens_ok(items@),
    ensures
        b == kd_wf(views_of(items@), lo as int, hi as int, depth as nat),
    decreases hi - lo,
{
    let ghost s = views_of(items@);
    if hi - lo <= 1 {
        return true;
    }
    let mid = lo + (hi - lo) / 2;
    let axis = depth % DIM;
    proof {
        assert(axis as int == axis_of(depth as nat));
        assert(items@[mid as int].embeddings@.len() >= DIM);
    }
    let mkey = items[mid].embeddings[axis];
    proof {
        assert(mkey as int == s[mid as int].embeddings[axis as int]) by {
            assert(s[mid as int] == items@[mid as int]@);
        }
    }
    let mut i = lo;
    while i < mid
        invariant
            lo <= i <= mid,
            mid < items@.len(),
            axis < DIM,
            axis as int == axis_of(depth as nat),
            mkey as int == s[mid as int].embeddings[axis as int],
            s == views_of(items@),
            lens_ok(items@),
            forall|j: int|
                lo <= j < i ==> (#[trigger] s[j]).embeddings[axis as int] <= s[
                    mid as int
                ].embeddings[axis as int],
        decreases mid - i,
    {
        proof {
            assert(items@[i as int].embeddings@.len() >= DIM);
            assert(s[i as int] == items@[i as int]@);
        }
        if items[i].embeddings[axis] > mkey {
            proof {
                assert(s[i as int].embeddings[axis as int] > s[mid as int].embeddings[
                    axis as int
                ]);
                assert(!kd_wf(s, lo as int, hi as int, depth as nat));
            }
            return false;
        }
        i += 1;
    }
    let mut i = mid + 1;
    while i < hi
        invariant
            mid < i <= hi,
            hi <= items@.len(),
            axis < DIM,
            axis as int == axis_of(depth as nat),
            mkey as int == s[mid as int].embeddings[axis as int],
            s == views_of(items@),
            lens_ok(items@),
            forall|j: int|
                mid < j < i ==> s[mid as int].embeddings[axis as int] <= (
                #[trigger] s[j]).embeddings[axis as int],
        decreases hi - i,
    {
        proof {
            assert(items@[i as int].embeddings@.len() >= DIM);
            assert(s[i as int] == items@[i as int]@);
        }
        if items[i].embeddings[axis] < mkey {
            proof {
                assert(s[i as int].embeddings[axis as int] < s[mid as int].embeddings[
                    axis as int
                ]);
                assert(!kd_wf(s, lo as int, hi as int, depth as nat));
            }
            return false;
        }
        i += 1;
    }
    if !check_kd(items, lo, mid, depth + 1) {
        proof {
            assert(!kd_wf(s, lo as int, hi as int, depth as nat));
        }
        return false;
    }
    if !check_kd(items, mid + 1, hi, depth + 1) {
        proof {
            assert(!kd_wf(s, lo as int, hi as int, depth as nat));
        }
        return false;
    }
    true
}

} // verus!

