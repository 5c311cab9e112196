//! The Dunn index of a partition: smallest distance between clusters over
//! largest distance within one, both kept squared.
use vstd::prelude::*;
use crate::ClusterError;
use crate::geometry::{bounded, sq_dist, squared_distance};
use crate::group::clusters_of;
use crate::points::PointSet;
use crate::update::members_in;

verus! {

/// The Dunn index as the square root of `separation / spread`.
#[derive(Debug, Clone, Copy, PartialEq, Eq, Structural)]
pub struct DunnScore {
    /// Smallest squared distance between points of different clusters.
    pub separation: u64,
    /// Largest squared distance between two points of one cluster.
    pub spread: u64,
}

/// Squared distance between member `a` of cluster `i` and member `b` of cluster `j`.
pub open spec fn pair_dist(pts: Seq<Seq<i64>>, cl: Seq<Seq<usize>>, i: int, a: int, j: int, b: int) -> int {
    sq_dist(pts[cl[i][a] as int], pts[cl[j][b] as int])
}

/// Member `a` of cluster `i` and member `b` of another cluster `j`.
pub open spec fn inter_pair(cl: Seq<Seq<usize>>, i: int, a: int, j: int, b: int) -> bool {
    &&& 0 <= i < cl.len()
    &&& 0 <= j < cl.len()
    &&& i != j
    &&& 0 <= a < cl[i].len()
    &&& 0 <= b < cl[j].len()
}

/// Two different members `a` and `b` of cluster `i`.
pub open spec fn intra_pair(cl: Seq<Seq<usize>>, i: int, a: int, b: int) -> bool {
    &&& 0 <= i < cl.len()
    &&& 0 <= a < cl[i].len()
    &&& 0 <= b < cl[i].len()
    &&& a != b
}

/// `v` is the smallest squared distance between points of different clusters.
pub open spec fn is_min_separation(pts: Seq<Seq<i64>>, cl: Seq<Seq<usize>>, v: int) -> bool {
    &&& exists|i: int, a: int, j: int, b: int| inter_pair(cl, i, a, j, b) && #[trigger] pair_dist(pts, cl, i, a, j, b) == v
    &&& forall|i: int, a: int, j: int, b: int| inter_pair(cl, i, a, j, b) ==> v <= #[trigger] pair_dist(pts, cl, i, a, j, b)
}

/// `v` is the largest squared distance between two points of one cluster, or
/// zero where no cluster has two points.
pub open spec fn is_max_spread(pts: Seq<Seq<i64>>, cl: Seq<Seq<usize>>, v: int) -> bool {
    &&& v >= 0
    &&& v == 0 || exists|i: int, a: int, b: int| intra_pair(cl, i, a, b) && #[trigger] pair_dist(pts, cl, i, a, i, b) == v
    &&& forall|i: int, a: int, b: int| intra_pair(cl, i, a, b) ==> #[trigger] pair_dist(pts, cl, i, a, i, b) <= v
}

/// Some cluster holds two points at a positive distance.
pub open spec fn has_spread(pts: Seq<Seq<i64>>, cl: Seq<Seq<usize>>) -> bool {
    exists|i: int, a: int, b: int| intra_pair(cl, i, a, b) && #[trigger] pair_dist(pts, cl, i, a, i, b) > 0
}

/// The clusters are non-empty and name rows of a table of `n` rows.
pub open spec fn clusters_valid(cl: Seq<Seq<usize>>, n: nat) -> bool {
    forall|c: int| 0 <= c < cl.len() ==> (#[trigger] cl[c]).len() > 0 && members_in(cl[c], n)
}

/// The separation and the spread are each pinned down by their description.
pub proof fn lemma_score_unique(pts: Seq<Seq<i64>>, cl: Seq<Seq<usize>>, v: int, w: int)
    ensures
        is_min_separation(pts, cl, v) && is_min_separation(pts, cl, w) ==> v == w,
        is_max_spread(pts, cl, v) && is_max_spread(pts, cl, w) ==> v == w,
{
    if is_min_separation(pts, cl, v) && is_min_separation(pts, cl, w) {
        let (i, a, j, b) = choose|i: int, a: int, j: int, b: int| inter_pair(cl, i, a, j, b) && #[trigger] pair_dist(pts, cl, i, a, j, b) == v;
        let (i2, a2, j2, b2) = choose|i: int, a: int, j: int, b: int| inter_pair(cl, i, a, j, b) && #[trigger] pair_dist(pts, cl, i, a, j, b) == w;
        assert(w <= pair_dist(pts, cl, i, a, j, b));
        assert(v <= pair_dist(pts, cl, i2, a2, j2, b2));
    }
    if is_max_spread(pts, cl, v) && is_max_spread(pts, cl, w) {
        if v != 0 {
            let (i, a, b) = choose|i: int, a: int, b: int| intra_pair(cl, i, a, b) && #[trigger] pair_dist(pts, cl, i, a, i, b) == v;
            assert(pair_dist(pts, cl, i, a, i, b) <= w);
        }
        if w != 0 {
            let (i, a, b) = choose|i: int, a: int, b: int| intra_pair(cl, i, a, b) && #[trigger] pair_dist(pts, cl, i, a, i, b) == w;
            assert(pair_dist(pts, cl, i, a, i, b) <= v);
        }
    }
}

/// Squared distance between two rows of the point set.
fn row_distance(ps: &PointSet, x: usize, y: usize) -> (r: u64)
    requires
        ps.wf(),
        x < ps.points.len(),
        y < ps.points.len(),
    ensures
        r == sq_dist(ps.coords()[x as int], ps.coords()[y as int]),
{
    assert(ps.coords()[x as int] == ps.points@[x as int].coords@);
    assert(ps.coords()[y as int] == ps.points@[y as int].coords@);
    assert(ps.points@[x as int].coords@.len() == ps.dim && bounded(ps.points@[x as int].coords@));
    assert(ps.points@[y as int].coords@.len() == ps.dim && bounded(ps.points@[y as int].coords@));
    squared_distance(&ps.points[x].coords, &ps.points[y].coords)
}

/// Largest squared distance between two members of cluster `i`, zero for a singleton.
fn farthest_within(ps: &PointSet, cl: &Vec<Vec<usize>>, i: usize) -> (r: u64)
    requires
        ps.wf(),
        clusters_valid(clusters_of(cl@), ps.points@.len()),
        i < cl.len(),
    ensures
        r == 0 || exists|a: int, b: int| intra_pair(clusters_of(cl@), i as int, a, b)
            && #[trigger] pair_dist(ps.coords(), clusters_of(cl@), i as int, a, i as int, b) == r,
        forall|a: int, b: int| intra_pair(clusters_of(cl@), i as int, a, b)
            ==> #[trigger] pair_dist(ps.coords(), clusters_of(cl@), i as int, a, i as int, b) <= r,
{
    let ghost c = clusters_of(cl@);
    let ghost pts = ps.coords();
    let members = &cl[i];
    assert(c[i as int] == members@);
    let mut best: u64 = 0;
    let ghost mut wa: int = 0;
    let ghost mut wb: int = 0;
    let mut a: usize = 0;
    while a < members.len()
        invariant
            ps.wf(),
            c == clusters_of(cl@),
            pts == ps.coords(),
            clusters_valid(c, ps.points@.len()),
            i < cl.len(),
            c[i as int] == members@,
            a <= members.len(),
            best == 0 || (intra_pair(c, i as int, wa, wb) && pair_dist(pts, c, i as int, wa, i as int, wb) == best),
            forall|a2: int, b2: int| intra_pair(c, i as int, a2, b2) && a2 < a
                ==> #[trigger] pair_dist(pts, c, i as int, a2, i as int, b2) <= best,
        decreases members.len() - a,
    {
        let mut b: usize = 0;
        while b < members.len()
            invariant
                ps.wf(),
                c == clusters_of(cl@),
                pts == ps.coords(),
                clusters_valid(c, ps.points@.len()),
                i < cl.len(),
                c[i as int] == members@,
                a < members.len(),
                b <= members.len(),
                best == 0 || (intra_pair(c, i as int, wa, wb) && pair_dist(pts, c, i as int, wa, i as int, wb) == best),
                forall|a2: int, b2: int| intra_pair(c, i as int, a2, b2) && (a2 < a || (a2 == a && b2 < b))
                    ==> #[trigger] pair_dist(pts, c, i as int, a2, i as int, b2) <= best,
            decreases members.len() - b,
        {
            if a != b {
                assert(members_in(c[i as int], ps.points@.len()));
                assert(members@[a as int] < ps.points@.len());
                assert(members@[b as int] < ps.points@.len());
                let d = row_distance(ps, members[a], members[b]);
                if d > best {
                    best = d;
                    proof {
                        wa = a as int;
                        wb = b as int;
                    }
                }
            }
            b = b + 1;
        }
        a = a + 1;
    }
    best
}

/// Smallest squared distance between a member of cluster `i` and one of cluster `j`.
fn nearest_between(ps: &PointSet, cl: &Vec<Vec<usize>>, i: usize, j: usize) -> (r: u64)
    requires
        ps.wf(),
        clusters_valid(clusters_of(cl@), ps.points@.len()),
        i < cl.len(),
        j < cl.len(),
        i != j,
    ensures
        exists|a: int, b: int| inter_pair(clusters_of(cl@), i as int, a, j as int, b)
            && #[trigger] pair_dist(ps.coords(), clusters_of(cl@), i as int, a, j as int, b) == r,
        forall|a: int, b: int| inter_pair(clusters_of(cl@), i as int, a, j as int, b)
            ==> r <= #[trigger] pair_dist(ps.coords(), clusters_of(cl@), i as int, a, j as int, b),
{
    let ghost c = clusters_of(cl@);
    let ghost pts = ps.coords();
    let ci = &cl[i];
    let cj = &cl[j];
    assert(c[i as int] == ci@);
    assert(c[j as int] == cj@);
    assert(members_in(c[i as int], ps.points@.len()));
    assert(members_in(c[j as int], ps.points@.len()));
    assert(ci@[0] < ps.points@.len() && cj@[0] < ps.points@.len());
    let mut best: u64 = row_distance(ps, ci[0], cj[0]);
    let ghost mut wa: int = 0;
    let ghost mut wb: int = 0;
    let mut a: usize = 0;
    while a < ci.len()
        invariant
            ps.wf(),
            c == clusters_of(cl@),
            pts == ps.coords(),
            clusters_valid(c, ps.points@.len()),
            i < cl.len(),
            j < cl.len(),
            i != j,
            c[i as int] == ci@,
            c[j as int] == cj@,
            a <= ci.len(),
            inter_pair(c, i as int, wa, j as int, wb) && pair_dist(pts, c, i as int, wa, j as int, wb) == best,
            forall|a2: int, b2: int| inter_pair(c, i as int, a2, j as int, b2) && a2 < a
                ==> best <= #[trigger] pair_dist(pts, c, i as int, a2, j as int, b2),
        decreases ci.len() - a,
    {
        let mut b: usize = 0;
        while b < cj.len()
            invariant
                ps.wf(),
                c == clusters_of(cl@),
                pts == ps.coords(),
                clusters_valid(c, ps.points@.len()),
                i < cl.len(),
                j < cl.len(),
                i != j,
                c[i as int] == ci@,
                c[j as int] == cj@,
                a < ci.len(),
                b <= cj.len(),
                inter_pair(c, i as int, wa, j as int, wb) && pair_dist(pts, c, i as int, wa, j as int, wb) == best,
                forall|a2: int, b2: int| inter_pair(c, i as int, a2, j as int, b2) && (a2 < a || (a2 == a && b2 < b))
                    ==> best <= #[trigger] pair_dist(pts, c, i as int, a2, j as int, b2),
            decreases cj.len() - b,
        {
            assert(members_in(c[i as int], ps.points@.len()));
            assert(members_in(c[j as int], ps.points@.len()));
            assert(ci@[a as int] < ps.points@.len());
            assert(cj@[b as int] < ps.points@.len());
            let d = row_distance(ps, ci[a], cj[b]);
            if d < best {
                best = d;
                proof {
                    wa = a as int;
                    wb = b as int;
                }
            }
            b = b + 1;
        }
        a = a + 1;
    }
    best
}

/// The Dunn index of `clusters`; `DegenerateMetric` where there are fewer than
/// two clusters or no cluster holds two points apart.
pub fn dann_index(ps: &PointSet, clusters: &Vec<Vec<usize>>) -> (r: Result<DunnScore, ClusterError>)
    requires
        ps.wf(),
        clusters_valid(clusters_of(clusters@), ps.points@.len()),
    ensures
        r is Ok <==> clusters.len() >= 2 && has_spread(ps.coords(), clusters_of(clusters@)),
        r is Err ==> r == Err::<DunnScore, ClusterError>(ClusterError::DegenerateMetric),
        r matches Ok(s) ==> is_min_separation(ps.coords(), clusters_of(clusters@), s.separation as int)
            && is_max_spread(ps.coords(), clusters_of(clusters@), s.spread as int),
{
    let ghost c = clusters_of(clusters@);
    let ghost pts = ps.coords();
    let mut spread: u64 = 0;
    let ghost mut wi: int = 0;
    let ghost mut wa: int = 0;
    let ghost mut wb: int = 0;
    let mut i: usize = 0;
    while i < clusters.len()
        invariant
            ps.wf(),
            c == clusters_of(clusters@),
            pts == ps.coords(),
            clusters_valid(c, ps.points@.len()),
            i <= clusters.len(),
            spread == 0 || (intra_pair(c, wi, wa, wb) && pair_dist(pts, c, wi, wa, wi, wb) == spread),
            forall|i2: int, a2: int, b2: int| intra_pair(c, i2, a2, b2) && i2 < i
                ==> #[trigger] pair_dist(pts, c, i2, a2, i2, b2) <= spread,
        decreases clusters.len() - i,
    {
        let d = farthest_within(ps, clusters, i);
        if d > spread {
            proof {
                let (a, b) = choose|a: int, b: int| intra_pair(c, i as int, a, b)
                    && #[trigger] pair_dist(pts, c, i as int, a, i as int, b) == d;
                wi = i as int;
                wa = a;
                wb = b;
            }
            spread = d;
        }
        i = i + 1;
    }
    assert(is_max_spread(pts, c, spread as int));
    proof {
        if spread > 0 {
            assert(pair_dist(pts, c, wi, wa, wi, wb) > 0);
        }
    }
    if clusters.len() < 2 || spread == 0 {
        return Err(ClusterError::DegenerateMetric);
    }
    assert(clusters@[1]@ == c[1]);
    let mut sep: u64 = nearest_between(ps, clusters, 0, 1);
    let ghost mut si: int = 0;
    let ghost mut sa: int = 0;
    let ghost mut sj: int = 1;
    let ghost mut sb: int = 0;
    proof {
        let (a, b) = choose|a: int, b: int| inter_pair(c, 0, a, 1, b) && #[trigger] pair_dist(pts, c, 0, a, 1, b) == sep;
        sa = a;
        sb = b;
    }
    let mut i: usize = 0;
    while i < clusters.len()
        invariant
            ps.wf(),
            c == clusters_of(clusters@),
            pts == ps.coords(),
            clusters_valid(c, ps.points@.len()),
            clusters.len() >= 2,
            i <= clusters.len(),
            inter_pair(c, si, sa, sj, sb) && pair_dist(pts, c, si, sa, sj, sb) == sep,
            forall|i2: int, a2: int, j2: int, b2: int| inter_pair(c, i2, a2, j2, b2) && i2 < i
                ==> sep <= #[trigger] pair_dist(pts, c, i2, a2, j2, b2),
        decreases clusters.len() - i,
    {
        let mut j: usize = 0;
        while j < clusters.len()
            invariant
                ps.wf(),
                c == clusters_of(clusters@),
                pts == ps.coords(),
                clusters_valid(c, ps.points@.len()),
                i < clusters.len(),
                j <= clusters.len(),
                inter_pair(c, si, sa, sj, sb) && pair_dist(pts, c, si, sa, sj, sb) == sep,
                forall|i2: int, a2: int, j2: int, b2: int| inter_pair(c, i2, a2, j2, b2) && (i2 < i || (i2 == i && j2 < j))
                    ==> sep <= #[trigger] pair_dist(pts, c, i2, a2, j2, b2),
            decreases clusters.len() - j,
        {
            if i != j {
                let d = nearest_between(ps, clusters, i, j);
                if d < sep {
                    proof {
                        let (a, b) = choose|a: int, b: int| inter_pair(c, i as int, a, j as int, b)
                            && #[trigger] pair_dist(pts, c, i as int, a, j as int, b) == d;
                        si = i as int;
                        sj = j as int;
                        sa = a;
                        sb = b;
                    }
                    sep = d;
                }
            }
            j = j + 1;
        }
        i = i + 1;
    }
    assert(is_min_separation(pts, c, sep as int));
    Ok(DunnScore { separation: sep, spread })
}

} // verus!
