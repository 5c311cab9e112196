//! Choice of the cluster count by the Dunn index.
use vstd::prelude::*;
use crate::ClusterError;
use crate::dunn::{clusters_valid, dann_index, DunnScore};
use crate::dunn::{has_spread, is_max_spread, is_min_separation, lemma_score_unique};
use crate::engine::{evaluate, unseeded_run, Partition};
use crate::init::positions_valid;
use crate::group::clusters_of;
use crate::points::PointSet;

verus! {

/// The score reached with `k` clusters.
#[derive(Debug, Clone, Copy, PartialEq, Eq, Structural)]
pub struct KScore {
    pub k: usize,
    pub score: DunnScore,
}

/// The result of a sweep over cluster counts.
pub struct Selection {
    /// The count with the highest score, the first one on ties.
    pub best_k: usize,
    /// The counts that kept all their clusters, with their scores, ascending in `k`.
    pub scores: Vec<KScore>,
}

/// `s` has a larger Dunn index than `t`:
/// `sqrt(s.separation / s.spread) > sqrt(t.separation / t.spread)`.
pub open spec fn better(s: DunnScore, t: DunnScore) -> bool {
    s.separation as int * t.spread as int > t.separation as int * s.spread as int
}

/// Entry `i` has the highest score, and every entry before it a lower one.
pub open spec fn is_first_best(c: Seq<KScore>, i: int) -> bool {
    &&& 0 <= i < c.len()
    &&& forall|j: int| 0 <= j < c.len() ==> !better(#[trigger] c[j].score, c[i].score)
    &&& forall|j: int| 0 <= j < i ==> better(c[i].score, #[trigger] c[j].score)
}

/// Every score has a positive spread.
pub open spec fn scores_defined(c: Seq<KScore>) -> bool {
    forall|j: int| 0 <= j < c.len() ==> (#[trigger] c[j]).score.spread > 0
}

proof fn lemma_better_through(a: DunnScore, b: DunnScore, c: DunnScore)
    requires
        a.spread > 0,
        b.spread > 0,
        c.spread > 0,
        !better(a, b),
        better(c, b),
    ensures
        better(c, a),
{
    let (sa, pa) = (a.separation as int, a.spread as int);
    let (sb, pb) = (b.separation as int, b.spread as int);
    let (sc, pc) = (c.separation as int, c.spread as int);
    assert(sc * pa > sa * pc) by (nonlinear_arith)
        requires
            pa > 0,
            pb > 0,
            pc > 0,
            sa >= 0,
            sb >= 0,
            sc >= 0,
            sa * pb <= sb * pa,
            sc * pb > sb * pc,
    {
        assert(sa * pb * pc <= sb * pa * pc);
        assert(sb * pc * pa < sc * pb * pa);
        assert(sa * pc * pb < sc * pa * pb);
    }
}

/// Whether `s` has a larger Dunn index than `t`.
pub fn is_better(s: &DunnScore, t: &DunnScore) -> (r: bool)
    ensures
        r == better(*s, *t),
{
    let (a, b, c, d) = (s.separation as u128, t.spread as u128, t.separation as u128, s.spread as u128);
    proof {
        assert(a * b <= 0xffff_ffff_ffff_ffff * 0xffff_ffff_ffff_ffff) by (nonlinear_arith)
            requires
                a <= 0xffff_ffff_ffff_ffff,
                b <= 0xffff_ffff_ffff_ffff,
        ;
        assert(c * d <= 0xffff_ffff_ffff_ffff * 0xffff_ffff_ffff_ffff) by (nonlinear_arith)
            requires
                c <= 0xffff_ffff_ffff_ffff,
                d <= 0xffff_ffff_ffff_ffff,
        ;
    }
    a * b > c * d
}

/// The position of the first entry with the highest score; `None` when empty.
pub fn pick_best(c: &Vec<KScore>) -> (r: Option<usize>)
    requires
        scores_defined(c@),
    ensures
        r is None <==> c.len() == 0,
        r matches Some(i) ==> is_first_best(c@, i as int),
{
    if c.len() == 0 {
        return None;
    }
    let mut best: usize = 0;
    let mut j: usize = 1;
    while j < c.len()
        invariant
            scores_defined(c@),
            1 <= j <= c.len(),
            best < j,
            forall|l: int| 0 <= l < j ==> !better(#[trigger] c@[l].score, c@[best as int].score),
            forall|l: int| 0 <= l < best ==> better(c@[best as int].score, #[trigger] c@[l].score),
        decreases c.len() - j,
    {
        if is_better(&c[j].score, &c[best].score) {
            proof {
                assert forall|l: int| 0 <= l < j implies better(c@[j as int].score, #[trigger] c@[l].score) by {
                    lemma_better_through(c@[l].score, c@[best as int].score, c@[j as int].score);
                }
                assert forall|l: int| 0 <= l <= j implies !better(#[trigger] c@[l].score, c@[j as int].score) by {
                    if l < j {
                        assert(better(c@[j as int].score, c@[l].score));
                    }
                }
            }
            best = j;
        }
        j = j + 1;
    }
    Some(best)
}

/// The outcome of one k-means run made with `k` initial centroids.
pub struct Run {
    pub k: usize,
    pub outcome: Result<Partition, ClusterError>,
}

/// The clusters of a run that succeeded, none otherwise.
pub open spec fn run_clusters(run: Run) -> Seq<Seq<usize>> {
    match run.outcome {
        Ok(p) => clusters_of(p.clusters@),
        Err(_) => seq![],
    }
}

/// The run succeeded, kept all `k` clusters, and its Dunn index is defined.
pub open spec fn qualifies(pts: Seq<Seq<i64>>, run: Run) -> bool {
    &&& run.outcome is Ok
    &&& run_clusters(run).len() == run.k
    &&& run.k >= 2
    &&& has_spread(pts, run_clusters(run))
}

/// The smallest squared distance between points of different clusters.
pub open spec fn separation_of(pts: Seq<Seq<i64>>, cl: Seq<Seq<usize>>) -> int {
    choose|v: int| is_min_separation(pts, cl, v)
}

/// The largest squared distance between two points of one cluster.
pub open spec fn spread_of(pts: Seq<Seq<i64>>, cl: Seq<Seq<usize>>) -> int {
    choose|v: int| is_max_spread(pts, cl, v)
}

/// The entry of a qualifying run.
pub open spec fn score_of_run(pts: Seq<Seq<i64>>, run: Run) -> KScore {
    KScore {
        k: run.k,
        score: DunnScore {
            separation: separation_of(pts, run_clusters(run)) as u64,
            spread: spread_of(pts, run_clusters(run)) as u64,
        },
    }
}

/// The entries of the qualifying runs, in run order.
pub open spec fn scores_of(pts: Seq<Seq<i64>>, runs: Seq<Run>) -> Seq<KScore>
    decreases runs.len(),
{
    if runs.len() == 0 {
        seq![]
    } else {
        let rest = scores_of(pts, runs.drop_last());
        if qualifies(pts, runs.last()) {
            rest.push(score_of_run(pts, runs.last()))
        } else {
            rest
        }
    }
}

/// Each successful run's clusters are non-empty and name rows of a table of `n` rows.
pub open spec fn runs_valid(runs: Seq<Run>, n: nat) -> bool {
    forall|j: int| 0 <= j < runs.len() ==> clusters_valid(run_clusters(#[trigger] runs[j]), n)
}

/// The separation and spread of a qualifying run are those its clusters have.
pub open spec fn scored_exactly(pts: Seq<Seq<i64>>, run: Run) -> bool {
    qualifies(pts, run) ==> {
        &&& is_min_separation(pts, run_clusters(run), separation_of(pts, run_clusters(run)))
        &&& is_max_spread(pts, run_clusters(run), spread_of(pts, run_clusters(run)))
        &&& 0 <= separation_of(pts, run_clusters(run)) <= u64::MAX
        &&& 0 <= spread_of(pts, run_clusters(run)) <= u64::MAX
    }
}

/// Every entry of `scores_of` comes from a qualifying run.
pub proof fn lemma_scores_from_runs(pts: Seq<Seq<i64>>, runs: Seq<Run>)
    ensures
        forall|t: int| 0 <= t < scores_of(pts, runs).len() ==> exists|j: int|
            0 <= j < runs.len() && qualifies(pts, runs[j]) && #[trigger] scores_of(pts, runs)[t] == score_of_run(
                pts,
                runs[j],
            ),
    decreases runs.len(),
{
    if runs.len() > 0 {
        let rest = runs.drop_last();
        lemma_scores_from_runs(pts, rest);
        let s = scores_of(pts, runs);
        let r = scores_of(pts, rest);
        assert forall|t: int| 0 <= t < s.len() implies exists|j: int|
            0 <= j < runs.len() && qualifies(pts, runs[j]) && #[trigger] s[t] == score_of_run(pts, runs[j]) by {
            if t < r.len() {
                assert(s[t] == r[t]);
                let j = choose|j: int| 0 <= j < rest.len() && qualifies(pts, rest[j]) && #[trigger] r[t] == score_of_run(pts, rest[j]);
                assert(runs[j] == rest[j]);
            } else {
                assert(s[t] == score_of_run(pts, runs[runs.len() - 1]));
            }
        }
    }
}

/// Scores the runs that kept all their clusters and have a defined Dunn index,
/// and picks the count with the highest score, the first one on ties;
/// `NoValidCandidate` when no run qualifies.
pub fn select_from_runs(points: &PointSet, runs: &Vec<Run>) -> (r: Result<Selection, ClusterError>)
    requires
        points.wf(),
        runs_valid(runs@, points.points@.len()),
    ensures
        r is Err <==> scores_of(points.coords(), runs@).len() == 0,
        r is Err ==> r == Err::<Selection, ClusterError>(ClusterError::NoValidCandidate),
        forall|j: int| 0 <= j < runs.len() ==> scored_exactly(points.coords(), #[trigger] runs@[j]),
        r matches Ok(sel) ==> {
            &&& sel.scores@ == scores_of(points.coords(), runs@)
            &&& exists|i: int| is_first_best(sel.scores@, i) && (#[trigger] sel.scores@[i]).k == sel.best_k
        },
{
    let ghost pts = points.coords();
    let mut scores: Vec<KScore> = Vec::new();
    let mut j: usize = 0;
    while j < runs.len()
        invariant
            points.wf(),
            pts == points.coords(),
            runs_valid(runs@, points.points@.len()),
            j <= runs.len(),
            scores@ == scores_of(pts, runs@.subrange(0, j as int)),
            scores_defined(scores@),
            forall|l: int| 0 <= l < j ==> scored_exactly(pts, #[trigger] runs@[l]),
        decreases runs.len() - j,
    {
        let run = &runs[j];
        assert(runs@.subrange(0, j + 1).drop_last() =~= runs@.subrange(0, j as int));
        assert(runs@.subrange(0, j + 1).last() == runs@[j as int]);
        assert(clusters_valid(run_clusters(runs@[j as int]), points.points@.len()));
        let mut pushed = false;
        match &run.outcome {
            Ok(p) => {
                if p.clusters.len() == run.k && run.k >= 2 {
                    if let Ok(sc) = dann_index(points, &p.clusters) {
                        let ghost cl = clusters_of(p.clusters@);
                        proof {
                            lemma_score_unique(pts, cl, sc.separation as int, separation_of(pts, cl));
                            lemma_score_unique(pts, cl, sc.spread as int, spread_of(pts, cl));
                            if sc.spread == 0 {
                                let (i, a, b) = choose|i: int, a: int, b: int| crate::dunn::intra_pair(cl, i, a, b)
                                    && #[trigger] crate::dunn::pair_dist(pts, cl, i, a, i, b) > 0;
                            }
                        }
                        scores.push(KScore { k: run.k, score: sc });
                        pushed = true;
                    }
                }
            },
            Err(_) => {},
        }
        assert(scored_exactly(pts, runs@[j as int]));
        proof {
            if pushed {
                assert(scores@ =~= scores_of(pts, runs@.subrange(0, j as int)).push(score_of_run(pts, runs@[j as int])));
            }
        }
        j = j + 1;
    }
    assert(runs@.subrange(0, runs.len() as int) =~= runs@);
    match pick_best(&scores) {
        Some(i) => {
            let best_k = scores[i].k;
            let sel = Selection { best_k, scores };
            assert(is_first_best(sel.scores@, i as int) && sel.scores@[i as int].k == sel.best_k);
            Ok(sel)
        },
        None => Err(ClusterError::NoValidCandidate),
    }
}

/// A run from the rows at the `e.k` distinct positions `p` kept `e.k` clusters
/// and has the score of `e`.
pub open spec fn score_from_draw(pts: Seq<Seq<i64>>, dim: nat, max_iterations: nat, e: KScore, p: Seq<usize>) -> bool {
    &&& positions_valid(p, pts.len(), e.k as nat)
    &&& match unseeded_run(pts, dim, p, max_iterations) {
        Some((c, _)) => c.len() == e.k && is_min_separation(pts, c, e.score.separation as int)
            && is_max_spread(pts, c, e.score.spread as int),
        None => false,
    }
}

/// Runs k-means from `k` random rows for each count `k` in `k_min..k_max`, and
/// selects among the runs as `select_from_runs` does. Each score is that of a
/// run from some `k` distinct rows that kept all its clusters.
pub fn select_best_k(points: &PointSet, k_min: usize, k_max: usize, max_iterations: usize) -> (r: Result<Selection, ClusterError>)
    requires
        points.wf(),
    ensures
        r is Err ==> r == Err::<Selection, ClusterError>(ClusterError::NoValidCandidate),
        k_min >= k_max ==> r is Err,
        r matches Ok(sel) ==> {
            &&& k_min <= sel.best_k < k_max
            &&& scores_defined(sel.scores@)
            &&& exists|i: int| is_first_best(sel.scores@, i) && (#[trigger] sel.scores@[i]).k == sel.best_k
            &&& forall|t: int| 0 <= t < sel.scores.len() ==> k_min <= (#[trigger] sel.scores@[t]).k < k_max
                && exists|p: Seq<usize>| #[trigger] score_from_draw(
                    points.coords(),
                    points.dim as nat,
                    max_iterations as nat,
                    sel.scores@[t],
                    p,
                )
        },
{
    let ghost pts = points.coords();
    let ghost n = points.points@.len();
    let ghost dim = points.dim as nat;
    let mut runs: Vec<Run> = Vec::new();
    let mut k: usize = k_min;
    while k < k_max
        invariant
            points.wf(),
            pts == points.coords(),
            n == points.points@.len(),
            dim == points.dim as nat,
            k_min <= k,
            runs.len() > 0 ==> k <= k_max,
            runs_valid(runs@, n),
            forall|j: int| 0 <= j < runs.len() ==> k_min <= (#[trigger] runs@[j]).k < k && runs@[j].k >= 1,
            forall|j: int| 0 <= j < runs.len() ==> match (#[trigger] runs@[j]).outcome {
                Ok(q) => exists|p: Seq<usize>| positions_valid(p, n, runs@[j].k as nat)
                    && #[trigger] unseeded_run(pts, dim, p, max_iterations as nat) == Some((clusters_of(q.clusters@), q.iterations as nat)),
                Err(_) => true,
            },
        decreases k_max - k,
    {
        if k >= 1 {
            let outcome = evaluate(points, k, None, max_iterations);
            let ghost before = runs@;
            proof {
                if outcome is Ok {
                    let q = outcome->Ok_0;
                    let cl = clusters_of(q.clusters@);
                    assert forall|c: int| 0 <= c < cl.len() implies (#[trigger] cl[c]).len() > 0
                        && crate::update::members_in(cl[c], n) by {
                        assert forall|m: int| 0 <= m < cl[c].len() implies #[trigger] cl[c][m] < n by {
                            assert(cl[c][m] < n);
                        }
                    }
                    let p = choose|p: Seq<usize>| positions_valid(p, n, k as nat) && match #[trigger] unseeded_run(
                        pts,
                        dim,
                        p,
                        max_iterations as nat,
                    ) {
                        Some((c, it)) => outcome matches Ok(q) && clusters_of(q.clusters@) == c && q.iterations == it,
                        None => outcome == Err::<Partition, ClusterError>(ClusterError::NonConvergence),
                    };
                    assert(unseeded_run(pts, dim, p, max_iterations as nat) == Some((cl, q.iterations as nat)));
                }
            }
            runs.push(Run { k, outcome });
            proof {
                assert forall|j: int| 0 <= j < runs.len() implies clusters_valid(run_clusters(#[trigger] runs@[j]), n) by {
                    if j < before.len() {
                        assert(runs@[j] == before[j]);
                    }
                }
                assert(forall|j: int| 0 <= j < before.len() ==> runs@[j] == before[j]);
            }
        }
        k = k + 1;
    }
    let r = select_from_runs(points, &runs);
    proof {
        if r is Ok {
            let sel = r->Ok_0;
            lemma_scores_from_runs(pts, runs@);
            assert forall|t: int| 0 <= t < sel.scores.len() implies k_min <= (#[trigger] sel.scores@[t]).k < k_max
                && exists|p: Seq<usize>| #[trigger] score_from_draw(pts, dim, max_iterations as nat, sel.scores@[t], p) by {
                let j = choose|j: int| 0 <= j < runs.len() && qualifies(pts, runs@[j]) && #[trigger] scores_of(pts, runs@)[t]
                    == score_of_run(pts, runs@[j]);
                let run = runs@[j];
                assert(scored_exactly(pts, run));
                let q = run.outcome->Ok_0;
                let p = choose|p: Seq<usize>| positions_valid(p, n, run.k as nat)
                    && #[trigger] unseeded_run(pts, dim, p, max_iterations as nat) == Some((clusters_of(q.clusters@), q.iterations as nat));
                assert(unseeded_run(pts, dim, p, max_iterations as nat) == Some((run_clusters(run), q.iterations as nat)));
                assert(score_from_draw(pts, dim, max_iterations as nat, sel.scores@[t], p));
            }
        }
    }
    r
}

} // verus!
