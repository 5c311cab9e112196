//! The k-means engine: assign, group, update, and stop on a stable partition.
use vstd::prelude::*;
use crate::ClusterError;
use crate::assign::{assign, assign_spec, rows_fit_dim, rows_of};
use crate::group::{clusters_of, group, group_spec, is_partition_of, lemma_group_partitions, in_some};
use crate::init::{id_mask, init_centers, position_mask, positions_valid, seeds_valid, selected};
use crate::points::PointSet;
use crate::update::{centroids_spec, members_in, update_centroids};

verus! {

/// The clusters formed around `centers`.
pub open spec fn next_clusters(pts: Seq<Seq<i64>>, centers: Seq<Seq<i64>>) -> Seq<Seq<usize>> {
    group_spec(assign_spec(pts, centers), centers.len())
}

/// The run stops after forming `cur` when at most one cluster is left, or when
/// the count is unchanged from `last` and either every cluster of `cur` occurs in
/// `last` or the first clusters agree.
pub open spec fn stops(cur: Seq<Seq<usize>>, last: Seq<Seq<usize>>) -> bool {
    ||| cur.len() <= 1
    ||| cur.len() == last.len() && (
        (forall|i: int| 0 <= i < cur.len() ==> last.contains(#[trigger] cur[i]))
        || cur[0] == last[0])
}

/// The outcome of a run from `centers` after `done` iterations, with `fuel`
/// iterations left: the final clusters and the iteration count, or `None`.
pub open spec fn run_spec(
    pts: Seq<Seq<i64>>,
    dim: nat,
    centers: Seq<Seq<i64>>,
    last: Seq<Seq<usize>>,
    done: nat,
    fuel: nat,
) -> Option<(Seq<Seq<usize>>, nat)>
    decreases fuel,
{
    if fuel == 0 {
        None
    } else {
        let cur = next_clusters(pts, centers);
        if stops(cur, last) {
            Some((cur, done + 1))
        } else {
            run_spec(pts, dim, centroids_spec(pts, cur, dim), cur, done + 1, (fuel - 1) as nat)
        }
    }
}

/// The single cluster that holds every row, which a run compares its first partition with.
pub open spec fn whole(n: nat) -> Seq<Seq<usize>> {
    seq![Seq::new(n, |i: int| i as usize)]
}

/// The outcome of a run seeded with the rows whose ids are `ids`.
pub open spec fn seeded_run(pts: Seq<Seq<i64>>, row_ids: Seq<u64>, dim: nat, ids: Seq<u64>, max_iterations: nat) -> Option<
    (Seq<Seq<usize>>, nat),
> {
    run_spec(pts, dim, selected(pts, id_mask(row_ids, ids)), whole(pts.len()), 0, max_iterations)
}

/// The outcome of a run seeded with the rows at `positions`.
pub open spec fn unseeded_run(pts: Seq<Seq<i64>>, dim: nat, positions: Seq<usize>, max_iterations: nat) -> Option<
    (Seq<Seq<usize>>, nat),
> {
    run_spec(pts, dim, selected(pts, position_mask(pts.len(), positions)), whole(pts.len()), 0, max_iterations)
}

/// Clusters `points` into at most `k` clusters, seeded from the rows with ids
/// `seed_ids` where given, else from `k` rows drawn at random, running at most
/// `max_iterations` iterations.
pub fn evaluate(points: &PointSet, k: usize, seed_ids: Option<Vec<u64>>, max_iterations: usize) -> (r: Result<Partition, ClusterError>)
    requires
        points.wf(),
        k >= 1,
    ensures
        r matches Ok(p) ==> is_partition_of(clusters_of(p.clusters@), points.points@.len()) && p.clusters.len() <= k,
        seed_ids matches Some(ids) ==> match seeded_run(points.coords(), points.ids(), points.dim as nat, ids@, max_iterations as nat) {
            Some((c, n)) => if seeds_valid(points.ids(), ids@, k as nat) {
                r matches Ok(p) && clusters_of(p.clusters@) == c && p.iterations == n
                    && rows_of(p.centroids@) == centroids_spec(points.coords(), c, points.dim as nat)
            } else {
                r == Err::<Partition, ClusterError>(ClusterError::InvalidSeed)
            },
            None => r == Err::<Partition, ClusterError>(
                if seeds_valid(points.ids(), ids@, k as nat) { ClusterError::NonConvergence } else { ClusterError::InvalidSeed },
            ),
        },
        seed_ids is None ==> (r == Err::<Partition, ClusterError>(ClusterError::InsufficientPoints) <==> k > points.points.len()),
        seed_ids is None && r is Err ==> r == Err::<Partition, ClusterError>(ClusterError::InsufficientPoints)
            || r == Err::<Partition, ClusterError>(ClusterError::NonConvergence),
        seed_ids is None && k <= points.points.len() ==> exists|p: Seq<usize>|
            positions_valid(p, points.points@.len(), k as nat) && match #[trigger] unseeded_run(
                points.coords(),
                points.dim as nat,
                p,
                max_iterations as nat,
            ) {
                Some((c, it)) => r matches Ok(q) && clusters_of(q.clusters@) == c && q.iterations == it,
                None => r == Err::<Partition, ClusterError>(ClusterError::NonConvergence),
            },
{
    let unseeded = match &seed_ids {
        Some(_) => false,
        None => true,
    };
    let km = match KMeans::new(points.duplicate(), k, seed_ids) {
        Ok(km) => km,
        Err(e) => {
            return Err(e);
        },
    };
    let ghost pts = points.coords();
    let ghost n = points.points@.len();
    let ghost p = if unseeded {
        choose|p: Seq<usize>| positions_valid(p, n, k as nat) && rows_of(km.centers@) == selected(
            km.points.coords(),
            #[trigger] position_mask(km.points.points@.len(), p),
        )
    } else {
        Seq::empty()
    };
    assert(pts.len() == n);
    let r = km.eval(max_iterations);
    assert(unseeded ==> unseeded_run(pts, points.dim as nat, p, max_iterations as nat) == run_spec(
        pts,
        points.dim as nat,
        rows_of(km.centers@),
        clusters_of(km.clusters@),
        0,
        max_iterations as nat,
    ));
    r
}

/// The result of a run.
pub struct Partition {
    /// Row positions of each cluster, ascending.
    pub clusters: Vec<Vec<usize>>,
    /// The mean of each cluster.
    pub centroids: Vec<Vec<i64>>,
    /// Number of assignment passes made.
    pub iterations: usize,
}

/// A run of k-means over one point set.
pub struct KMeans {
    pub points: PointSet,
    pub centers: Vec<Vec<i64>>,
    /// The clusters of the previous iteration.
    pub clusters: Vec<Vec<usize>>,
}

impl KMeans {
    pub open spec fn wf(&self) -> bool {
        &&& self.points.wf()
        &&& self.centers.len() > 0
        &&& rows_fit_dim(rows_of(self.centers@), self.points.dim as nat)
        &&& self.clusters.len() > 0
        &&& forall|c: int| 0 <= c < self.clusters.len() ==> (#[trigger] self.clusters@[c]).len() > 0
    }

    /// A run over `points` with `n_clusters` initial centroids, copied from the
    /// rows with ids `center_ids` where given, else from rows drawn at random.
    pub fn new(points: PointSet, n_clusters: usize, center_ids: Option<Vec<u64>>) -> (r: Result<KMeans, ClusterError>)
        requires
            points.wf(),
            n_clusters >= 1,
        ensures
            r matches Ok(km) ==> km.wf() && km.points == points && km.centers.len() == n_clusters
                && clusters_of(km.clusters@) == whole(points.points@.len()),
            center_ids is Some ==> (r matches Err(e) ==> e == ClusterError::InvalidSeed),
            center_ids is None ==> (r matches Err(e) ==> e == ClusterError::InsufficientPoints),
            center_ids matches Some(ids) ==> (r is Ok <==> crate::init::seeds_valid(points.ids(), ids@, n_clusters as nat)),
            center_ids matches Some(ids) ==> (r matches Ok(km) ==> rows_of(km.centers@) == crate::init::selected(
                points.coords(),
                crate::init::id_mask(points.ids(), ids@),
            )),
            center_ids is None ==> (r is Err <==> n_clusters > points.points.len()),
            center_ids is None ==> (r matches Ok(km) ==> exists|p: Seq<usize>|
                crate::init::positions_valid(p, points.points@.len(), n_clusters as nat) && rows_of(km.centers@)
                    == crate::init::selected(points.coords(), #[trigger] crate::init::position_mask(points.points@.len(), p))),
    {
        let centers = match init_centers(&points, n_clusters, center_ids) {
            Ok(cs) => cs,
            Err(e) => {
                return Err(e);
            },
        };
        let mut all: Vec<usize> = Vec::new();
        let mut i: usize = 0;
        while i < points.points.len()
            invariant
                i <= points.points.len(),
                all@ =~= Seq::new(i as nat, |a: int| a as usize),
            decreases points.points.len() - i,
        {
            all.push(i);
            i = i + 1;
        }
        let clusters = vec![all];
        assert(clusters_of(clusters@) =~= whole(points.points@.len()));
        Ok(KMeans { points, centers, clusters })
    }

    /// One iteration: assign every point to its nearest centroid, group the points
    /// into non-empty clusters, move each centroid to its cluster's mean, and
    /// report whether the run stops here.
    pub fn step(&mut self) -> (stop: bool)
        requires
            old(self).wf(),
        ensures
            final(self).wf(),
            final(self).points == old(self).points,
            clusters_of(final(self).clusters@) == next_clusters(old(self).points.coords(), rows_of(old(self).centers@)),
            rows_of(final(self).centers@) == centroids_spec(
                old(self).points.coords(),
                clusters_of(final(self).clusters@),
                old(self).points.dim as nat,
            ),
            stop == stops(clusters_of(final(self).clusters@), clusters_of(old(self).clusters@)),
            is_partition_of(clusters_of(final(self).clusters@), old(self).points.points@.len()),
            final(self).centers.len() <= old(self).centers.len(),
            final(self).clusters.len() == final(self).centers.len(),
    {
        let labels = assign(&self.points, &self.centers);
        let cur = group(&labels, self.centers.len());
        let n_labels = labels.len();
        let ghost cv = clusters_of(cur@);
        proof {
            lemma_group_partitions(labels@, self.centers.len() as nat);
            assert(n_labels == self.points.points@.len());
            assert(in_some(cv, 0));
            assert(cv.len() == cur.len());
            assert forall|c: int| 0 <= c < cur.len() implies (#[trigger] cur@[c]).len() > 0 && members_in(
                cur@[c]@,
                self.points.points@.len(),
            ) by {
                assert(cv[c] == cur@[c]@);
                assert forall|k: int| 0 <= k < cur@[c]@.len() implies #[trigger] cur@[c]@[k] < self.points.points@.len() by {
                    assert(cv[c][k] < labels@.len());
                }
            }
        }
        let centers = update_centroids(&self.points, &cur);
        assert(cur.len() > 0 ==> cv[0] == cur@[0]@);
        assert(rows_of(centers@).len() == centers.len());
        assert(centers.len() == cur.len());
        assert(self.clusters.len() > 0 ==> clusters_of(self.clusters@)[0] == self.clusters@[0]@);
        let stop = if cur.len() <= 1 {
            true
        } else if cur.len() != self.clusters.len() {
            false
        } else {
            all_found(&cur, &self.clusters) || same_members(&cur[0], &self.clusters[0])
        };
        self.centers = centers;
        self.clusters = cur;
        stop
    }

    /// Runs at most `max_iterations` iterations; the partition where the run
    /// stopped, or `NonConvergence`.
    pub fn eval(self, max_iterations: usize) -> (r: Result<Partition, ClusterError>)
        requires
            self.wf(),
        ensures
            match run_spec(
                self.points.coords(),
                self.points.dim as nat,
                rows_of(self.centers@),
                clusters_of(self.clusters@),
                0,
                max_iterations as nat,
            ) {
                Some((c, n)) => r matches Ok(p) && clusters_of(p.clusters@) == c && p.iterations == n
                    && rows_of(p.centroids@) == centroids_spec(self.points.coords(), c, self.points.dim as nat),
                None => r == Err::<Partition, ClusterError>(ClusterError::NonConvergence),
            },
            r matches Ok(p) ==> is_partition_of(clusters_of(p.clusters@), self.points.points@.len())
                && p.clusters.len() <= self.centers.len(),
    {
        let ghost pts = self.points.coords();
        let ghost dim = self.points.dim as nat;
        let ghost n = self.points.points@.len();
        let ghost k0 = self.centers.len();
        let ghost outcome = run_spec(pts, dim, rows_of(self.centers@), clusters_of(self.clusters@), 0, max_iterations as nat);
        let mut km = self;
        let mut it: usize = 0;
        while it < max_iterations
            invariant
                km.wf(),
                km.points.coords() == pts,
                km.points.dim as nat == dim,
                km.points.points@.len() == n,
                n == self.points.points@.len(),
                pts == self.points.coords(),
                dim == self.points.dim as nat,
                k0 == self.centers.len(),
                outcome == run_spec(pts, dim, rows_of(self.centers@), clusters_of(self.clusters@), 0, max_iterations as nat),
                it <= max_iterations,
                km.centers.len() <= k0,
                outcome == run_spec(
                    pts,
                    dim,
                    rows_of(km.centers@),
                    clusters_of(km.clusters@),
                    it as nat,
                    (max_iterations - it) as nat,
                ),
            decreases max_iterations - it,
        {
            let ghost c_before = rows_of(km.centers@);
            let ghost l_before = clusters_of(km.clusters@);
            let stop = km.step();
            proof {
                let cur = next_clusters(pts, c_before);
                assert(clusters_of(km.clusters@) == cur);
                assert(run_spec(pts, dim, c_before, l_before, it as nat, (max_iterations - it) as nat) == if stops(
                    cur,
                    l_before,
                ) {
                    Some((cur, (it + 1) as nat))
                } else {
                    run_spec(pts, dim, centroids_spec(pts, cur, dim), cur, (it + 1) as nat, (max_iterations - it - 1) as nat)
                });
            }
            it = it + 1;
            if stop {
                let p = Partition { clusters: km.clusters, centroids: km.centers, iterations: it };
                return Ok(p);
            }
        }
        Err(ClusterError::NonConvergence)
    }
}

/// Whether the two clusters hold the same positions in the same order.
fn same_members(a: &Vec<usize>, b: &Vec<usize>) -> (r: bool)
    ensures
        r == (a@ == b@),
{
    if a.len() != b.len() {
        return false;
    }
    let mut i: usize = 0;
    while i < a.len()
        invariant
            i <= a.len() == b.len(),
            forall|j: int| 0 <= j < i ==> a@[j] == b@[j],
        decreases a.len() - i,
    {
        if a[i] != b[i] {
            return false;
        }
        i = i + 1;
    }
    assert(a@ =~= b@);
    true
}

/// Whether every cluster of `cur` occurs among those of `last`.
fn all_found(cur: &Vec<Vec<usize>>, last: &Vec<Vec<usize>>) -> (r: bool)
    ensures
        r == forall|i: int| 0 <= i < cur.len() ==> clusters_of(last@).contains(#[trigger] clusters_of(cur@)[i]),
{
    let ghost lv = clusters_of(last@);
    let ghost cv = clusters_of(cur@);
    let mut i: usize = 0;
    while i < cur.len()
        invariant
            i <= cur.len(),
            lv == clusters_of(last@),
            cv == clusters_of(cur@),
            forall|a: int| 0 <= a < i ==> lv.contains(#[trigger] cv[a]),
        decreases cur.len() - i,
    {
        let mut found = false;
        let mut j: usize = 0;
        while j < last.len()
            invariant
                i < cur.len(),
                j <= last.len(),
                lv == clusters_of(last@),
                cv == clusters_of(cur@),
                found ==> lv.contains(cv[i as int]),
                !found ==> forall|b: int| 0 <= b < j ==> lv[b] != cv[i as int],
            decreases last.len() - j,
        {
            if same_members(&cur[i], &last[j]) {
                assert(lv[j as int] == cv[i as int]);
                found = true;
            }
            j = j + 1;
        }
        if !found {
            assert(!lv.contains(cv[i as int]));
            return false;
        }
        i = i + 1;
    }
    true
}

} // verus!
