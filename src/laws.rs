//! Properties that relate several calls of the library.
use vstd::prelude::*;
use crate::assign::{assign_spec, is_nearest, lemma_nearest_unique, nearest_index};
use crate::geometry::sq_dist;
use crate::group::{kept_keys, lemma_kept_keys, lemma_members_of, members_of};
use crate::dunn::{has_spread, inter_pair, intra_pair, is_max_spread, is_min_separation, pair_dist};
use crate::engine::{next_clusters, run_spec, seeded_run, stops};
use crate::update::centroids_spec;

verus! {

/// `cl2` lists the clusters of `cl1` in another order: `cl2[k] == cl1[perm[k]]`
/// for a bijection `perm` of the cluster indices.
pub open spec fn is_reordering(cl1: Seq<Seq<usize>>, cl2: Seq<Seq<usize>>, perm: Seq<int>) -> bool {
    &&& perm.len() == cl1.len() == cl2.len()
    &&& forall|k: int| 0 <= k < perm.len() ==> 0 <= #[trigger] perm[k] < cl1.len() && cl2[k] == cl1[perm[k]]
    &&& forall|k1: int, k2: int|
        #![trigger perm[k1], perm[k2]]
        0 <= k1 < perm.len() && 0 <= k2 < perm.len() && k1 != k2 ==> perm[k1] != perm[k2]
    &&& forall|i: int| 0 <= i < cl1.len() ==> #[trigger] hit(perm, i)
}

/// Some index is mapped to `i`.
pub open spec fn hit(perm: Seq<int>, i: int) -> bool {
    exists|k: int| 0 <= k < perm.len() && #[trigger] perm[k] == i
}

proof fn lemma_pairs_forward(pts: Seq<Seq<i64>>, cl1: Seq<Seq<usize>>, cl2: Seq<Seq<usize>>, perm: Seq<int>)
    requires
        is_reordering(cl1, cl2, perm),
    ensures
        forall|k1: int, a: int, k2: int, b: int| #[trigger] inter_pair(cl2, k1, a, k2, b) ==> inter_pair(cl1, perm[k1], a, perm[k2], b)
            && pair_dist(pts, cl2, k1, a, k2, b) == pair_dist(pts, cl1, perm[k1], a, perm[k2], b),
        forall|k: int, a: int, b: int| #[trigger] intra_pair(cl2, k, a, b) ==> intra_pair(cl1, perm[k], a, b)
            && pair_dist(pts, cl2, k, a, k, b) == pair_dist(pts, cl1, perm[k], a, perm[k], b),
{
    assert forall|k1: int, a: int, k2: int, b: int| #[trigger] inter_pair(cl2, k1, a, k2, b) implies inter_pair(
        cl1,
        perm[k1],
        a,
        perm[k2],
        b,
    ) && pair_dist(pts, cl2, k1, a, k2, b) == pair_dist(pts, cl1, perm[k1], a, perm[k2], b) by {
        assert(cl2[k1] == cl1[perm[k1]]);
        assert(cl2[k2] == cl1[perm[k2]]);
    }
    assert forall|k: int, a: int, b: int| #[trigger] intra_pair(cl2, k, a, b) implies intra_pair(cl1, perm[k], a, b)
        && pair_dist(pts, cl2, k, a, k, b) == pair_dist(pts, cl1, perm[k], a, perm[k], b) by {
        assert(cl2[k] == cl1[perm[k]]);
    }
}

proof fn lemma_inter_back(pts: Seq<Seq<i64>>, cl1: Seq<Seq<usize>>, cl2: Seq<Seq<usize>>, perm: Seq<int>, i: int, a: int, j: int, b: int) -> (r: (int, int))
    requires
        is_reordering(cl1, cl2, perm),
        inter_pair(cl1, i, a, j, b),
    ensures
        inter_pair(cl2, r.0, a, r.1, b),
        pair_dist(pts, cl2, r.0, a, r.1, b) == pair_dist(pts, cl1, i, a, j, b),
{
    assert(hit(perm, i) && hit(perm, j));
    let k1 = choose|k: int| 0 <= k < perm.len() && #[trigger] perm[k] == i;
    let k2 = choose|k: int| 0 <= k < perm.len() && #[trigger] perm[k] == j;
    assert(cl2[k1] == cl1[i]);
    assert(cl2[k2] == cl1[j]);
    (k1, k2)
}

proof fn lemma_intra_back(pts: Seq<Seq<i64>>, cl1: Seq<Seq<usize>>, cl2: Seq<Seq<usize>>, perm: Seq<int>, i: int, a: int, b: int) -> (k: int)
    requires
        is_reordering(cl1, cl2, perm),
        intra_pair(cl1, i, a, b),
    ensures
        intra_pair(cl2, k, a, b),
        pair_dist(pts, cl2, k, a, k, b) == pair_dist(pts, cl1, i, a, i, b),
{
    assert(hit(perm, i));
    let k = choose|k: int| 0 <= k < perm.len() && #[trigger] perm[k] == i;
    assert(cl2[k] == cl1[i]);
    k
}

proof fn lemma_min_separation_moves(pts: Seq<Seq<i64>>, cl1: Seq<Seq<usize>>, cl2: Seq<Seq<usize>>, perm: Seq<int>, v: int)
    requires
        is_reordering(cl1, cl2, perm),
    ensures
        is_min_separation(pts, cl1, v) <==> is_min_separation(pts, cl2, v),
{
    lemma_pairs_forward(pts, cl1, cl2, perm);
    if is_min_separation(pts, cl1, v) {
        let (i, a, j, b) = choose|i: int, a: int, j: int, b: int| inter_pair(cl1, i, a, j, b)
            && #[trigger] pair_dist(pts, cl1, i, a, j, b) == v;
        let (k1, k2) = lemma_inter_back(pts, cl1, cl2, perm, i, a, j, b);
        assert(pair_dist(pts, cl2, k1, a, k2, b) == v);
    }
    if is_min_separation(pts, cl2, v) {
        let (k1, a, k2, b) = choose|i: int, a: int, j: int, b: int| inter_pair(cl2, i, a, j, b)
            && #[trigger] pair_dist(pts, cl2, i, a, j, b) == v;
        assert(inter_pair(cl2, k1, a, k2, b));
        assert(pair_dist(pts, cl1, perm[k1], a, perm[k2], b) == v);
        assert forall|i: int, a: int, j: int, b: int| inter_pair(cl1, i, a, j, b) implies v <= #[trigger] pair_dist(
            pts,
            cl1,
            i,
            a,
            j,
            b,
        ) by {
            let (k1, k2) = lemma_inter_back(pts, cl1, cl2, perm, i, a, j, b);
            assert(v <= pair_dist(pts, cl2, k1, a, k2, b));
        }
    }
}

proof fn lemma_max_spread_moves(pts: Seq<Seq<i64>>, cl1: Seq<Seq<usize>>, cl2: Seq<Seq<usize>>, perm: Seq<int>, v: int)
    requires
        is_reordering(cl1, cl2, perm),
    ensures
        is_max_spread(pts, cl1, v) <==> is_max_spread(pts, cl2, v),
{
    lemma_pairs_forward(pts, cl1, cl2, perm);
    if is_max_spread(pts, cl1, v) && v != 0 {
        let (i, a, b) = choose|i: int, a: int, b: int| intra_pair(cl1, i, a, b) && #[trigger] pair_dist(pts, cl1, i, a, i, b) == v;
        let k = lemma_intra_back(pts, cl1, cl2, perm, i, a, b);
        assert(pair_dist(pts, cl2, k, a, k, b) == v);
    }
    if is_max_spread(pts, cl2, v) {
        if v != 0 {
            let (k, a, b) = choose|i: int, a: int, b: int| intra_pair(cl2, i, a, b) && #[trigger] pair_dist(pts, cl2, i, a, i, b) == v;
            assert(intra_pair(cl2, k, a, b));
            assert(pair_dist(pts, cl1, perm[k], a, perm[k], b) == v);
        }
        assert forall|i: int, a: int, b: int| intra_pair(cl1, i, a, b) implies #[trigger] pair_dist(pts, cl1, i, a, i, b) <= v by {
            let k = lemma_intra_back(pts, cl1, cl2, perm, i, a, b);
            assert(pair_dist(pts, cl2, k, a, k, b) <= v);
        }
    }
}

/// The Dunn index does not depend on the order of the clusters: the separation,
/// the spread, and whether the index is defined are the same for any reordering.
pub proof fn lemma_dunn_order_invariant(pts: Seq<Seq<i64>>, cl1: Seq<Seq<usize>>, cl2: Seq<Seq<usize>>, perm: Seq<int>)
    requires
        is_reordering(cl1, cl2, perm),
    ensures
        cl1.len() == cl2.len(),
        forall|v: int| is_min_separation(pts, cl1, v) <==> is_min_separation(pts, cl2, v),
        forall|v: int| is_max_spread(pts, cl1, v) <==> is_max_spread(pts, cl2, v),
        has_spread(pts, cl1) <==> has_spread(pts, cl2),
{
    assert forall|v: int| is_min_separation(pts, cl1, v) <==> is_min_separation(pts, cl2, v) by {
        lemma_min_separation_moves(pts, cl1, cl2, perm, v);
    }
    assert forall|v: int| is_max_spread(pts, cl1, v) <==> is_max_spread(pts, cl2, v) by {
        lemma_max_spread_moves(pts, cl1, cl2, perm, v);
    }
    lemma_pairs_forward(pts, cl1, cl2, perm);
    if has_spread(pts, cl1) {
        let (i, a, b) = choose|i: int, a: int, b: int| intra_pair(cl1, i, a, b) && #[trigger] pair_dist(pts, cl1, i, a, i, b) > 0;
        let k = lemma_intra_back(pts, cl1, cl2, perm, i, a, b);
        assert(pair_dist(pts, cl2, k, a, k, b) > 0);
    }
    if has_spread(pts, cl2) {
        let (k, a, b) = choose|i: int, a: int, b: int| intra_pair(cl2, i, a, b) && #[trigger] pair_dist(pts, cl2, i, a, i, b) > 0;
        assert(intra_pair(cl2, k, a, b));
        assert(pair_dist(pts, cl1, perm[k], a, perm[k], b) > 0);
    }
}

/// When one iteration assigns every point as the iteration before did, the
/// centroids it computes are the ones computed before.
pub proof fn lemma_stable_assignment_keeps_centroids(pts: Seq<Seq<i64>>, dim: nat, c1: Seq<Seq<i64>>, c2: Seq<Seq<i64>>)
    requires
        c1.len() == c2.len(),
        assign_spec(pts, c1) == assign_spec(pts, c2),
    ensures
        next_clusters(pts, c1) == next_clusters(pts, c2),
        centroids_spec(pts, next_clusters(pts, c1), dim) == centroids_spec(pts, next_clusters(pts, c2), dim),
{
}

/// Two seeded runs over the same rows with the same seed ids give the same partition.
pub proof fn lemma_seeded_runs_agree(
    pts1: Seq<Seq<i64>>,
    pts2: Seq<Seq<i64>>,
    row_ids1: Seq<u64>,
    row_ids2: Seq<u64>,
    dim: nat,
    ids: Seq<u64>,
    max_iterations: nat,
)
    requires
        pts1 == pts2,
        row_ids1 == row_ids2,
    ensures
        seeded_run(pts1, row_ids1, dim, ids, max_iterations) == seeded_run(pts2, row_ids2, dim, ids, max_iterations),
{
}

/// `j` is the nearest of the first `m` centroids, the lowest such index on ties.
pub open spec fn nearest_in_prefix(p: Seq<i64>, cs: Seq<Seq<i64>>, m: int, j: int) -> bool {
    &&& 0 <= j < m
    &&& forall|l: int| 0 <= l < m ==> sq_dist(p, cs[j]) <= sq_dist(p, #[trigger] cs[l])
    &&& forall|l: int| 0 <= l < j ==> sq_dist(p, cs[j]) < sq_dist(p, #[trigger] cs[l])
}

proof fn lemma_nearest_prefix(p: Seq<i64>, cs: Seq<Seq<i64>>, m: int)
    requires
        0 < m <= cs.len(),
    ensures
        exists|j: int| #[trigger] nearest_in_prefix(p, cs, m, j),
    decreases m,
{
    if m > 1 {
        lemma_nearest_prefix(p, cs, m - 1);
        let j = choose|j: int| #[trigger] nearest_in_prefix(p, cs, m - 1, j);
        if sq_dist(p, cs[m - 1]) < sq_dist(p, cs[j]) {
            assert forall|l: int| 0 <= l < m - 1 implies sq_dist(p, cs[m - 1]) < sq_dist(p, #[trigger] cs[l]) by {
                assert(sq_dist(p, cs[j]) <= sq_dist(p, cs[l]));
            }
            assert(nearest_in_prefix(p, cs, m, m - 1));
        } else {
            assert(nearest_in_prefix(p, cs, m, j));
        }
    } else {
        assert(nearest_in_prefix(p, cs, m, 0));
    }
}

/// Every point has a nearest centroid.
pub proof fn lemma_nearest_exists(p: Seq<i64>, cs: Seq<Seq<i64>>)
    requires
        0 < cs.len() <= usize::MAX,
    ensures
        is_nearest(p, cs, nearest_index(p, cs) as int),
{
    lemma_nearest_prefix(p, cs, cs.len() as int);
    let j = choose|j: int| #[trigger] nearest_in_prefix(p, cs, cs.len() as int, j);
    assert(is_nearest(p, cs, j));
    lemma_nearest_unique(p, cs, j);
}

/// When all points coincide, the first iteration puts every point into one
/// cluster, and the run stops there with one cluster after one iteration.
pub proof fn lemma_identical_points_one_cluster(
    pts: Seq<Seq<i64>>,
    dim: nat,
    centers: Seq<Seq<i64>>,
    last: Seq<Seq<usize>>,
    fuel: nat,
)
    requires
        0 < pts.len() <= usize::MAX,
        0 < centers.len() <= usize::MAX,
        fuel >= 1,
        forall|i: int| 0 <= i < pts.len() ==> #[trigger] pts[i] == pts[0],
    ensures
        run_spec(pts, dim, centers, last, 0, fuel) matches Some((c, it)) && it == 1 && c.len() == 1 && forall|x: usize|
            x < pts.len() ==> #[trigger] c[0].contains(x),
{
    let labels = assign_spec(pts, centers);
    let lab = nearest_index(pts[0], centers);
    lemma_nearest_exists(pts[0], centers);
    assert forall|i: int| 0 <= i < labels.len() implies #[trigger] labels[i] == lab by {
        assert(pts[i] == pts[0]);
    }
    let m = centers.len();
    lemma_kept_keys(labels, m);
    lemma_members_of(labels, lab);
    let ks = kept_keys(labels, m);
    assert forall|k: int| 0 <= k < ks.len() implies #[trigger] ks[k] == lab by {
        lemma_members_of(labels, ks[k]);
        let x = members_of(labels, ks[k])[0];
        assert(labels[x as int] == ks[k]);
    }
    assert(members_of(labels, lab).contains(0usize));
    assert(ks.contains(lab));
    if ks.len() > 1 {
        assert(ks[0] < ks[1]);
    }
    assert(ks.len() == 1);
    let cur = next_clusters(pts, centers);
    assert(cur[0] == members_of(labels, lab));
    assert(stops(cur, last));
}

/// One iteration forms at most as many clusters as there are places the points occupy.
pub proof fn lemma_next_clusters_at_most_places(pts: Seq<Seq<i64>>, centers: Seq<Seq<i64>>, places: Seq<Seq<i64>>)
    requires
        pts.len() <= usize::MAX,
        centers.len() <= usize::MAX,
        forall|i: int| 0 <= i < pts.len() ==> places.contains(#[trigger] pts[i]),
    ensures
        next_clusters(pts, centers).len() <= places.len(),
        next_clusters(pts, centers).len() <= centers.len(),
{
    let labels = assign_spec(pts, centers);
    let m = centers.len();
    lemma_kept_keys(labels, m);
    let ks = kept_keys(labels, m);
    let first = Seq::new(ks.len(), |t: int| members_of(labels, ks[t])[0]);
    let imgs = Seq::new(ks.len(), |t: int| pts[first[t] as int]);
    assert forall|t: int| 0 <= t < ks.len() implies first[t] < pts.len() && labels[first[t] as int] == #[trigger] ks[t] by {
        lemma_members_of(labels, ks[t]);
    }
    assert(imgs.no_duplicates()) by {
        assert forall|a: int, b: int| 0 <= a < imgs.len() && 0 <= b < imgs.len() && a != b implies imgs[a] != imgs[b] by {
            assert(labels[first[a] as int] == ks[a]);
            assert(labels[first[b] as int] == ks[b]);
            if a < b {
                assert(ks[a] < ks[b]);
            } else {
                assert(ks[b] < ks[a]);
            }
        }
    }
    imgs.unique_seq_to_set();
    places.lemma_cardinality_of_set();
    assert(imgs.to_set().subset_of(places.to_set())) by {
        assert forall|x: Seq<i64>| imgs.to_set().contains(x) implies places.to_set().contains(x) by {
            let t = choose|t: int| 0 <= t < imgs.len() && imgs[t] == x;
            assert(first[t] < pts.len() && labels[first[t] as int] == ks[t]);
            assert(places.contains(pts[first[t] as int]));
        }
    }
    vstd::set_lib::lemma_len_subset(imgs.to_set(), places.to_set());
}

/// A run never ends with more clusters than there are places the points occupy:
/// points at one place always share a centroid.
pub proof fn lemma_run_at_most_places(
    pts: Seq<Seq<i64>>,
    dim: nat,
    centers: Seq<Seq<i64>>,
    last: Seq<Seq<usize>>,
    done: nat,
    fuel: nat,
    places: Seq<Seq<i64>>,
)
    requires
        pts.len() <= usize::MAX,
        centers.len() <= usize::MAX,
        forall|i: int| 0 <= i < pts.len() ==> places.contains(#[trigger] pts[i]),
    ensures
        run_spec(pts, dim, centers, last, done, fuel) matches Some((c, _)) ==> c.len() <= places.len(),
    decreases fuel,
{
    if fuel > 0 {
        lemma_next_clusters_at_most_places(pts, centers, places);
        let cur = next_clusters(pts, centers);
        if !stops(cur, last) {
            lemma_run_at_most_places(pts, dim, centroids_spec(pts, cur, dim), cur, done + 1, (fuel - 1) as nat, places);
        }
    }
}

} // verus!
