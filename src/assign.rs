//! The assignment step: each point goes to its nearest centroid.
use vstd::prelude::*;
use crate::geometry::{bounded, sq_dist, squared_distance, MAX_DIM};
use crate::points::PointSet;

verus! {

/// The views of a list of coordinate vectors.
pub open spec fn rows_of(v: Seq<Vec<i64>>) -> Seq<Seq<i64>> {
    v.map_values(|c: Vec<i64>| c@)
}

/// Every row has `dim` coordinates, all within range.
pub open spec fn rows_fit_dim(rows: Seq<Seq<i64>>, dim: nat) -> bool {
    forall|i: int| 0 <= i < rows.len() ==> (#[trigger] rows[i]).len() == dim && bounded(rows[i])
}

/// `j` is the centroid closest to `p`, the lowest such index on ties.
pub open spec fn is_nearest(p: Seq<i64>, cs: Seq<Seq<i64>>, j: int) -> bool {
    &&& 0 <= j < cs.len()
    &&& forall|l: int| 0 <= l < cs.len() ==> sq_dist(p, cs[j]) <= sq_dist(p, #[trigger] cs[l])
    &&& forall|l: int| 0 <= l < j ==> sq_dist(p, cs[j]) < sq_dist(p, #[trigger] cs[l])
}

/// The index of the centroid closest to `p`.
pub open spec fn nearest_index(p: Seq<i64>, cs: Seq<Seq<i64>>) -> usize {
    (choose|j: int| is_nearest(p, cs, j)) as usize
}

/// The centroid index given to each point.
pub open spec fn assign_spec(pts: Seq<Seq<i64>>, cs: Seq<Seq<i64>>) -> Seq<usize> {
    Seq::new(pts.len(), |i: int| nearest_index(pts[i], cs))
}

pub proof fn lemma_nearest_unique(p: Seq<i64>, cs: Seq<Seq<i64>>, j: int)
    requires
        is_nearest(p, cs, j),
        cs.len() <= usize::MAX,
    ensures
        nearest_index(p, cs) == j,
{
    assert(exists|k: int| is_nearest(p, cs, k));
    let k = choose|k: int| is_nearest(p, cs, k);
    assert(is_nearest(p, cs, k));
    if k < j {
        assert(sq_dist(p, cs[j]) < sq_dist(p, cs[k]));
    } else if j < k {
        assert(sq_dist(p, cs[k]) < sq_dist(p, cs[j]));
    }
}

/// The index of the centroid nearest to `p`; on ties the lowest index wins.
pub fn nearest_centroid(p: &Vec<i64>, cs: &Vec<Vec<i64>>) -> (r: usize)
    requires
        cs.len() > 0,
        p.len() <= MAX_DIM,
        bounded(p@),
        rows_fit_dim(rows_of(cs@), p.len() as nat),
    ensures
        is_nearest(p@, rows_of(cs@), r as int),
        r == nearest_index(p@, rows_of(cs@)),
{
    let ghost rows = rows_of(cs@);
    assert(rows[0] == cs@[0]@);
    let mut best: usize = 0;
    let mut best_d: u64 = squared_distance(p, &cs[0]);
    let mut j: usize = 1;
    while j < cs.len()
        invariant
            1 <= j <= cs.len(),
            rows == rows_of(cs@),
            p.len() <= MAX_DIM,
            bounded(p@),
            rows_fit_dim(rows, p.len() as nat),
            best < j,
            best_d == sq_dist(p@, rows[best as int]),
            forall|l: int| 0 <= l < j ==> best_d <= sq_dist(p@, #[trigger] rows[l]),
            forall|l: int| 0 <= l < best ==> best_d < sq_dist(p@, #[trigger] rows[l]),
        decreases cs.len() - j,
    {
        assert(rows[j as int] == cs@[j as int]@);
        let d = squared_distance(p, &cs[j]);
        if d < best_d {
            best = j;
            best_d = d;
        }
        j = j + 1;
    }
    proof {
        lemma_nearest_unique(p@, rows, best as int);
    }
    best
}

/// The nearest centroid of every point, in table order.
pub fn assign(ps: &PointSet, cs: &Vec<Vec<i64>>) -> (r: Vec<usize>)
    requires
        ps.wf(),
        cs.len() > 0,
        rows_fit_dim(rows_of(cs@), ps.dim as nat),
    ensures
        r@ == assign_spec(ps.coords(), rows_of(cs@)),
        forall|i: int| 0 <= i < r.len() ==> r@[i] < cs.len(),
{
    let mut labels: Vec<usize> = Vec::new();
    let mut i: usize = 0;
    while i < ps.points.len()
        invariant
            ps.wf(),
            cs.len() > 0,
            rows_fit_dim(rows_of(cs@), ps.dim as nat),
            i <= ps.points.len(),
            labels@.len() == i,
            forall|a: int| 0 <= a < i ==> labels@[a] == nearest_index(ps.coords()[a], rows_of(cs@)),
            forall|a: int| 0 <= a < i ==> labels@[a] < cs.len(),
        decreases ps.points.len() - i,
    {
        assert(ps.coords()[i as int] == ps.points@[i as int].coords@);
        assert(ps.points@[i as int].coords@.len() == ps.dim);
        let j = nearest_centroid(&ps.points[i].coords, cs);
        labels.push(j);
        i = i + 1;
    }
    assert(labels@ =~= assign_spec(ps.coords(), rows_of(cs@)));
    labels
}

} // verus!
