//! The update step: each centroid moves to the mean of its cluster.
use vstd::prelude::*;
use vstd::arithmetic::div_mod::{lemma_div_by_multiple, lemma_div_is_ordered, lemma_hoist_over_denominator};
use crate::assign::{rows_fit_dim, rows_of};
use crate::geometry::{bounded, COORD_LIMIT};
use crate::group::clusters_of;
use crate::points::PointSet;

verus! {

/// Sum of coordinate `d` over the first `n` members.
pub open spec fn coord_sum(pts: Seq<Seq<i64>>, members: Seq<usize>, d: int, n: nat) -> int
    decreases n,
{
    if n == 0 {
        0
    } else {
        coord_sum(pts, members, d, (n - 1) as nat) + pts[members[n - 1] as int][d]
    }
}

/// The coordinate-wise mean of the members, each coordinate rounded down.
pub open spec fn centroid_spec(pts: Seq<Seq<i64>>, members: Seq<usize>, dim: nat) -> Seq<i64> {
    Seq::new(dim, |d: int| (coord_sum(pts, members, d, members.len()) / members.len() as int) as i64)
}

/// The centroid of each cluster, in cluster order.
pub open spec fn centroids_spec(pts: Seq<Seq<i64>>, clusters: Seq<Seq<usize>>, dim: nat) -> Seq<Seq<i64>> {
    clusters.map_values(|c: Seq<usize>| centroid_spec(pts, c, dim))
}

/// Every member names a row of `pts`.
pub open spec fn members_in(members: Seq<usize>, n: nat) -> bool {
    forall|k: int| 0 <= k < members.len() ==> #[trigger] members[k] < n
}

pub proof fn lemma_coord_sum_bounds(pts: Seq<Seq<i64>>, members: Seq<usize>, d: int, n: nat, dim: nat)
    requires
        rows_fit_dim(pts, dim),
        members_in(members, pts.len()),
        0 <= d < dim,
        n <= members.len(),
    ensures
        -(n * COORD_LIMIT) <= coord_sum(pts, members, d, n) <= n * COORD_LIMIT,
    decreases n,
{
    if n > 0 {
        lemma_coord_sum_bounds(pts, members, d, (n - 1) as nat, dim);
        let row = pts[members[n - 1] as int];
        assert(members[n - 1] < pts.len());
        assert(bounded(row) && row.len() == dim);
        assert(-COORD_LIMIT <= row[d] <= COORD_LIMIT);
    }
}

/// The mean of cluster `members`, rounded down in each coordinate.
pub fn centroid(ps: &PointSet, members: &Vec<usize>) -> (r: Vec<i64>)
    requires
        ps.wf(),
        members.len() > 0,
        members_in(members@, ps.points@.len()),
    ensures
        r@ == centroid_spec(ps.coords(), members@, ps.dim as nat),
        r@.len() == ps.dim,
        bounded(r@),
{
    let ghost pts = ps.coords();
    proof {
        assert forall|i: int| 0 <= i < pts.len() implies (#[trigger] pts[i]).len() == ps.dim && bounded(pts[i]) by {
            assert(pts[i] == ps.points@[i].coords@);
        }
    }
    let len = members.len();
    let mut r: Vec<i64> = Vec::new();
    let mut d: usize = 0;
    while d < ps.dim
        invariant
            ps.wf(),
            pts == ps.coords(),
            rows_fit_dim(pts, ps.dim as nat),
            len == members.len() > 0,
            members_in(members@, pts.len()),
            d <= ps.dim,
            r@.len() == d,
            bounded(r@),
            forall|e: int| 0 <= e < d ==> r@[e] == (coord_sum(pts, members@, e, len as nat) / len as int) as i64,
        decreases ps.dim - d,
    {
        let mut s: i128 = 0;
        let mut k: usize = 0;
        while k < len
            invariant
                ps.wf(),
                pts == ps.coords(),
                rows_fit_dim(pts, ps.dim as nat),
                len == members.len(),
                members_in(members@, pts.len()),
                d < ps.dim,
                k <= len,
                s == coord_sum(pts, members@, d as int, k as nat),
            decreases len - k,
        {
            proof {
                lemma_coord_sum_bounds(pts, members@, d as int, (k + 1) as nat, ps.dim as nat);
                assert(members@[k as int] < pts.len());
                assert(pts[members@[k as int] as int] == ps.points@[members@[k as int] as int].coords@);
            }
            let m = members[k];
            s = s + ps.points[m].coords[d] as i128;
            k = k + 1;
        }
        let ghost total = coord_sum(pts, members@, d as int, len as nat);
        proof {
            lemma_coord_sum_bounds(pts, members@, d as int, len as nat, ps.dim as nat);
        }
        let shift: i128 = len as i128 * COORD_LIMIT as i128;
        let shifted: u128 = (s + shift) as u128;
        let q: u128 = shifted / (len as u128);
        proof {
            let lim: int = COORD_LIMIT as int;
            let n: int = len as int;
            assert(lim * n == n * lim && (2 * lim) * n == 2 * (n * lim)) by (nonlinear_arith);
            lemma_hoist_over_denominator(total, lim, len as nat);
            lemma_div_is_ordered(0, total + lim * n, n);
            lemma_div_is_ordered(total + lim * n, (2 * lim) * n, n);
            lemma_div_by_multiple(2 * lim, n);
            assert(q == total / len as int + COORD_LIMIT);
        }
        let mean: i64 = q as i64 - COORD_LIMIT;
        r.push(mean);
        d = d + 1;
    }
    assert(r@ =~= centroid_spec(pts, members@, ps.dim as nat));
    r
}

/// The centroid of each cluster, in cluster order.
pub fn update_centroids(ps: &PointSet, clusters: &Vec<Vec<usize>>) -> (r: Vec<Vec<i64>>)
    requires
        ps.wf(),
        forall|c: int| 0 <= c < clusters.len() ==> (#[trigger] clusters@[c]).len() > 0
            && members_in(clusters@[c]@, ps.points@.len()),
    ensures
        rows_of(r@) == centroids_spec(ps.coords(), clusters_of(clusters@), ps.dim as nat),
        rows_fit_dim(rows_of(r@), ps.dim as nat),
{
    let mut r: Vec<Vec<i64>> = Vec::new();
    let mut c: usize = 0;
    while c < clusters.len()
        invariant
            ps.wf(),
            forall|c: int| 0 <= c < clusters.len() ==> (#[trigger] clusters@[c]).len() > 0
                && members_in(clusters@[c]@, ps.points@.len()),
            c <= clusters.len(),
            rows_of(r@) == centroids_spec(ps.coords(), clusters_of(clusters@.subrange(0, c as int)), ps.dim as nat),
            rows_fit_dim(rows_of(r@), ps.dim as nat),
        decreases clusters.len() - c,
    {
        let ghost before = r@;
        let cen = centroid(ps, &clusters[c]);
        r.push(cen);
        assert(rows_of(r@) =~= rows_of(before).push(cen@));
        assert(clusters_of(clusters@.subrange(0, c + 1)) =~= clusters_of(clusters@.subrange(0, c as int)).push(
            clusters@[c as int]@,
        ));
        assert(centroids_spec(ps.coords(), clusters_of(clusters@.subrange(0, c + 1)), ps.dim as nat) =~= centroids_spec(
            ps.coords(),
            clusters_of(clusters@.subrange(0, c as int)),
            ps.dim as nat,
        ).push(centroid_spec(ps.coords(), clusters@[c as int]@, ps.dim as nat)));
        c = c + 1;
    }
    assert(clusters@.subrange(0, clusters.len() as int) =~= clusters@);
    r
}

} // verus!
