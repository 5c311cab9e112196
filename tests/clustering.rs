use kmeans_select::assign::{assign, nearest_centroid};
use kmeans_select::dunn::{dann_index, DunnScore};
use kmeans_select::engine::{evaluate, KMeans};
use kmeans_select::geometry::squared_distance;
use kmeans_select::group::{group, members_with_label};
use kmeans_select::init::{centroids_at, init_centers, seeded_centroids};
use kmeans_select::points::{Point, PointSet};
use kmeans_select::select::{is_better, pick_best, select_best_k, select_from_runs, KScore, Run};
use kmeans_select::update::{centroid, update_centroids};
use kmeans_select::ClusterError;

fn pt(id: u64, c: &[i64]) -> Point {
    Point { id, coords: c.to_vec() }
}

fn set(rows: &[(u64, [i64; 3])]) -> PointSet {
    PointSet::new(rows.iter().map(|(id, c)| pt(*id, c)).collect()).unwrap()
}

fn four_points() -> PointSet {
    set(&[(0, [0, 0, 0]), (1, [0, 0, 1]), (2, [10, 10, 10]), (3, [10, 10, 11])])
}

fn two_clouds() -> PointSet {
    set(&[
        (0, [0, 0, 0]),
        (1, [1, 0, 0]),
        (2, [0, 1, 0]),
        (3, [100, 100, 100]),
        (4, [101, 100, 100]),
        (5, [100, 101, 100]),
    ])
}

fn assert_partition(clusters: &Vec<Vec<usize>>, n: usize) {
    let mut seen = vec![0usize; n];
    for c in clusters {
        assert!(!c.is_empty());
        for &m in c {
            seen[m] += 1;
        }
    }
    assert!(seen.iter().all(|&s| s == 1));
}

#[test]
fn seeded_scenario_converges_in_two_iterations() {
    let km = KMeans::new(four_points(), 2, Some(vec![0, 2])).unwrap();
    let p = km.eval(100).unwrap();
    assert_eq!(p.clusters, vec![vec![0, 1], vec![2, 3]]);
    assert_eq!(p.iterations, 2);
    assert_eq!(p.centroids, vec![vec![0, 0, 0], vec![10, 10, 10]]);
}

#[test]
fn every_point_in_exactly_one_cluster() {
    let ps = two_clouds();
    for k in 1..=6usize {
        let km = KMeans::new(ps.duplicate(), k, None).unwrap();
        let p = km.eval(1000).unwrap();
        assert_partition(&p.clusters, 6);
        assert!(p.clusters.len() <= k);
    }
}

#[test]
fn seeded_runs_are_identical() {
    let a = KMeans::new(two_clouds(), 3, Some(vec![0, 1, 3])).unwrap().eval(100).unwrap();
    let b = KMeans::new(two_clouds(), 3, Some(vec![0, 1, 3])).unwrap().eval(100).unwrap();
    assert_eq!(a.clusters, b.clusters);
    assert_eq!(a.centroids, b.centroids);
    assert_eq!(a.iterations, b.iterations);
}

#[test]
fn identical_points_collapse_to_one_cluster() {
    let ps = set(&[(0, [5, 5, 5]), (1, [5, 5, 5]), (2, [5, 5, 5]), (3, [5, 5, 5])]);
    for k in 1..=4usize {
        let ids: Vec<u64> = (0..k as u64).collect();
        let p = KMeans::new(ps.duplicate(), k, Some(ids)).unwrap().eval(10).unwrap();
        assert_eq!(p.clusters, vec![vec![0, 1, 2, 3]]);
        assert_eq!(p.iterations, 1);
        assert_eq!(dann_index(&ps, &p.clusters), Err(ClusterError::DegenerateMetric));
    }
}

#[test]
fn too_many_clusters_requested_collapse() {
    let ps = set(&[
        (0, [0, 0, 0]),
        (1, [0, 0, 0]),
        (2, [50, 50, 50]),
        (3, [50, 50, 50]),
        (4, [99, 0, 0]),
        (5, [99, 0, 0]),
    ]);
    let p = KMeans::new(ps.duplicate(), 5, None).unwrap().eval(100).unwrap();
    assert!(p.clusters.len() < 5);
    let p = KMeans::new(ps.duplicate(), 5, Some(vec![0, 1, 2, 3, 4])).unwrap().eval(100).unwrap();
    assert_eq!(p.clusters, vec![vec![0, 1], vec![2, 3], vec![4, 5]]);
    match select_best_k(&ps, 2, 6, 100) {
        Ok(sel) => {
            assert!(sel.scores.iter().all(|s| s.k != 4 && s.k != 5));
            assert!(sel.best_k < 4);
        }
        Err(e) => assert_eq!(e, ClusterError::NoValidCandidate),
    }
}

#[test]
fn cluster_count_never_grows_across_steps() {
    let ps = two_clouds();
    let mut km = KMeans::new(ps, 4, Some(vec![0, 1, 2, 3])).unwrap();
    let mut count = km.centers.len();
    for _ in 0..5 {
        let stop = km.step();
        assert!(km.centers.len() <= count);
        assert_eq!(km.clusters.len(), km.centers.len());
        count = km.centers.len();
        if stop {
            break;
        }
    }
}

#[test]
fn stable_assignment_keeps_centroids() {
    let mut km = KMeans::new(four_points(), 2, Some(vec![0, 2])).unwrap();
    km.step();
    let first = km.centers.clone();
    let clusters = km.clusters.clone();
    km.step();
    assert_eq!(km.clusters, clusters);
    assert_eq!(km.centers, first);
}

#[test]
fn score_ignores_cluster_order() {
    let ps = two_clouds();
    let a = dann_index(&ps, &vec![vec![0, 1, 2], vec![3, 4, 5]]).unwrap();
    let b = dann_index(&ps, &vec![vec![3, 4, 5], vec![0, 1, 2]]).unwrap();
    assert_eq!(a, b);
    let c = dann_index(&ps, &vec![vec![0, 1], vec![2], vec![3, 4, 5]]).unwrap();
    let d = dann_index(&ps, &vec![vec![3, 4, 5], vec![2], vec![0, 1]]).unwrap();
    assert_eq!(c, d);
}

#[test]
fn score_separated_versus_interleaved() {
    let ps = two_clouds();
    let good = dann_index(&ps, &vec![vec![0, 1, 2], vec![3, 4, 5]]).unwrap();
    let bad = dann_index(&ps, &vec![vec![0, 3, 1], vec![4, 2, 5]]).unwrap();
    let value = |s: DunnScore| (s.separation as f64 / s.spread as f64).sqrt();
    assert!(value(good) > 1.0);
    assert!(value(bad) < 0.05);
    assert_eq!(good, DunnScore { separation: 29_801, spread: 2 });
    assert_eq!(bad.separation, 1);
}

#[test]
fn score_needs_two_clusters() {
    let ps = two_clouds();
    assert_eq!(dann_index(&ps, &vec![vec![0, 1, 2, 3, 4, 5]]), Err(ClusterError::DegenerateMetric));
    assert_eq!(dann_index(&ps, &vec![vec![0], vec![3]]), Err(ClusterError::DegenerateMetric));
}

#[test]
fn point_set_rejects_malformed_rows() {
    assert!(PointSet::new(vec![]).is_err());
    assert_eq!(
        PointSet::new(vec![pt(0, &[1, 2, 3]), pt(0, &[4, 5, 6])]).err(),
        Some(ClusterError::MalformedInput)
    );
    assert_eq!(PointSet::new(vec![pt(0, &[1, 2, 3]), pt(1, &[4, 5])]).err(), Some(ClusterError::MalformedInput));
    assert_eq!(PointSet::new(vec![pt(0, &[1, 2, 16_777_217])]).err(), Some(ClusterError::MalformedInput));
    assert_eq!(PointSet::new(vec![pt(0, &[])]).err(), Some(ClusterError::MalformedInput));
    let ps = PointSet::new(vec![pt(7, &[1, -16_777_216, 3]), pt(9, &[4, 5, 6])]).unwrap();
    assert_eq!(ps.len(), 2);
    assert_eq!(ps.dim, 3);
}

#[test]
fn seeds_must_be_valid() {
    let ps = four_points();
    assert_eq!(seeded_centroids(&ps, &vec![0, 9], 2), Err(ClusterError::InvalidSeed));
    assert_eq!(seeded_centroids(&ps, &vec![0, 0], 2), Err(ClusterError::InvalidSeed));
    assert_eq!(seeded_centroids(&ps, &vec![0, 1, 2], 2), Err(ClusterError::InvalidSeed));
    assert_eq!(seeded_centroids(&ps, &vec![2, 0], 2), Ok(vec![vec![0, 0, 0], vec![10, 10, 10]]));
    assert!(matches!(KMeans::new(four_points(), 2, Some(vec![5, 6])), Err(ClusterError::InvalidSeed)));
}

#[test]
fn random_seeding_needs_enough_points() {
    assert!(matches!(KMeans::new(four_points(), 5, None), Err(ClusterError::InsufficientPoints)));
    assert!(matches!(init_centers(&four_points(), 5, None), Err(ClusterError::InsufficientPoints)));
}

#[test]
fn random_seeding_draws_distinct_rows() {
    let ps = four_points();
    for _ in 0..20 {
        let cs = init_centers(&ps, 4, None).unwrap();
        assert_eq!(cs, vec![vec![0, 0, 0], vec![0, 0, 1], vec![10, 10, 10], vec![10, 10, 11]]);
        let cs = init_centers(&ps, 2, None).unwrap();
        assert_eq!(cs.len(), 2);
        assert_ne!(cs[0], cs[1]);
    }
}

#[test]
fn centroids_at_positions_in_table_order() {
    let ps = four_points();
    assert_eq!(centroids_at(&ps, &vec![3, 1]), vec![vec![0, 0, 1], vec![10, 10, 11]]);
}

#[test]
fn run_without_budget_does_not_converge() {
    let km = KMeans::new(four_points(), 2, Some(vec![0, 2])).unwrap();
    assert!(matches!(km.eval(0), Err(ClusterError::NonConvergence)));
    let km = KMeans::new(four_points(), 2, Some(vec![0, 2])).unwrap();
    assert!(matches!(km.eval(1), Err(ClusterError::NonConvergence)));
}

#[test]
fn empty_sweep_has_no_candidate() {
    assert!(matches!(select_best_k(&two_clouds(), 3, 3, 100), Err(ClusterError::NoValidCandidate)));
}

#[test]
fn sweep_prefers_the_natural_split() {
    let ps = two_clouds();
    for _ in 0..5 {
        let sel = select_best_k(&ps, 2, 3, 100).unwrap();
        assert_eq!(sel.best_k, 2);
        assert_eq!(sel.scores.len(), 1);
    }
}

#[test]
fn squared_distance_sums_squares() {
    assert_eq!(squared_distance(&vec![1, -2, 3], &vec![4, 2, 3]), 25);
    assert_eq!(squared_distance(&vec![-16_777_216], &vec![16_777_216]), 1u64 << 50);
}

#[test]
fn nearest_prefers_lowest_index_on_ties() {
    let cs = vec![vec![2, 0], vec![-2, 0], vec![0, 1]];
    assert_eq!(nearest_centroid(&vec![0, 0], &cs), 2);
    let cs = vec![vec![2, 0], vec![-2, 0]];
    assert_eq!(nearest_centroid(&vec![0, 0], &cs), 0);
    assert_eq!(nearest_centroid(&vec![-1, 0], &cs), 1);
}

#[test]
fn assign_and_group_drop_empty_centroids() {
    let ps = four_points();
    let labels = assign(&ps, &vec![vec![100, 100, 100], vec![0, 0, 0], vec![10, 10, 10]]);
    assert_eq!(labels, vec![1, 1, 2, 2]);
    assert_eq!(members_with_label(&labels, 2), vec![2, 3]);
    assert_eq!(group(&labels, 3), vec![vec![0, 1], vec![2, 3]]);
}

#[test]
fn centroid_rounds_down() {
    let ps = set(&[(0, [-1, 1, 3]), (1, [0, 2, 4]), (2, [0, 0, 0])]);
    assert_eq!(centroid(&ps, &vec![0, 1]), vec![-1, 1, 3]);
    assert_eq!(centroid(&ps, &vec![0, 1, 2]), vec![-1, 1, 2]);
    assert_eq!(update_centroids(&ps, &vec![vec![2], vec![0, 1]]), vec![vec![0, 0, 0], vec![-1, 1, 3]]);
}

#[test]
fn best_score_first_on_ties() {
    let s = |separation, spread| DunnScore { separation, spread };
    let c = vec![
        KScore { k: 2, score: s(4, 2) },
        KScore { k: 3, score: s(8, 2) },
        KScore { k: 4, score: s(16, 4) },
        KScore { k: 5, score: s(1, 1) },
    ];
    assert_eq!(pick_best(&c), Some(1));
    assert_eq!(pick_best(&vec![]), None);
    assert!(is_better(&s(3, 1), &s(5, 2)));
    assert!(!is_better(&s(5, 2), &s(5, 2)));
}

#[test]
fn evaluate_seeded_and_random() {
    let ps = four_points();
    let p = evaluate(&ps, 2, Some(vec![0, 2]), 100).unwrap();
    assert_eq!(p.clusters, vec![vec![0, 1], vec![2, 3]]);
    assert_eq!(p.iterations, 2);
    assert!(matches!(evaluate(&ps, 2, Some(vec![0]), 100), Err(ClusterError::InvalidSeed)));
    assert!(matches!(evaluate(&ps, 2, Some(vec![0, 2]), 1), Err(ClusterError::NonConvergence)));
    assert!(matches!(evaluate(&ps, 9, None, 100), Err(ClusterError::InsufficientPoints)));
    let p = evaluate(&ps, 4, None, 100).unwrap();
    assert_partition(&p.clusters, 4);
}

#[test]
fn select_from_runs_scores_kept_runs_in_order() {
    let ps = two_clouds();
    let run = |k: usize, seeds: Vec<u64>| Run { k, outcome: evaluate(&ps, k, Some(seeds), 100) };
    let runs = vec![
        run(2, vec![0, 3]),
        Run { k: 3, outcome: Err(ClusterError::NonConvergence) },
        run(3, vec![0, 1, 3]),
        run(6, vec![0, 1, 2, 3, 4, 5]),
    ];
    let sel = select_from_runs(&ps, &runs).unwrap();
    assert_eq!(sel.best_k, 2);
    assert_eq!(sel.scores.len(), 2);
    assert_eq!(sel.scores[0], KScore { k: 2, score: DunnScore { separation: 29_801, spread: 2 } });
    assert_eq!(sel.scores[1].k, 3);
    let collapsed = vec![Run { k: 4, outcome: evaluate(&ps, 4, Some(vec![0, 1, 2, 3]), 100) }];
    let p = evaluate(&ps, 4, Some(vec![0, 1, 2, 3]), 100).unwrap();
    if p.clusters.len() != 4 {
        assert!(matches!(select_from_runs(&ps, &collapsed), Err(ClusterError::NoValidCandidate)));
    }
    assert!(matches!(select_from_runs(&ps, &vec![]), Err(ClusterError::NoValidCandidate)));
}
