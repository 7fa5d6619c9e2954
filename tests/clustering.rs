use dbscan::clustering::{assign, upgrade};
use dbscan::{check_relation, dbscan, nearest_neighbors, ClusterAssignment, DBSCANResult};

use ClusterAssignment::{Cluster, Noise};

fn euclidean(x: &Vec<f64>, y: &Vec<f64>) -> f64 {
    x.iter()
        .zip(y.iter())
        .map(|(a, b)| (a - b).powf(2.0))
        .sum::<f64>()
        .sqrt()
}

fn row(point: &Vec<f64>, points: &Vec<Vec<f64>>, epsilon: f64) -> Vec<bool> {
    points.iter().map(|p| euclidean(point, p) <= epsilon).collect()
}

fn relation(points: &Vec<Vec<f64>>, epsilon: f64) -> Vec<Vec<bool>> {
    points.iter().map(|p| row(p, points, epsilon)).collect()
}

fn run(points: &Vec<Vec<f64>>, epsilon: f64, min_points: usize) -> Vec<ClusterAssignment> {
    let within = relation(points, epsilon);
    assert!(check_relation(&within));
    dbscan(&within, min_points).cluster_assignments
}

fn on_line(xs: &[f64]) -> Vec<Vec<f64>> {
    xs.iter().map(|x| vec![*x, 0.0]).collect()
}

#[test]
fn test_nearest_neighbors() {
    let x = vec![vec![0.0, 0.0], vec![1.0, 1.0]];
    let point = vec![0.0, 2.0];

    assert_eq!(nearest_neighbors(&row(&point, &x, 1.5)), vec![1]);
}

#[test]
fn test_dbscan() {
    let x = vec![vec![0.0, 0.0], vec![1.0, 1.0]];

    assert_eq!(
        dbscan(&relation(&x, 1.0), 1),
        DBSCANResult {
            cluster_assignments: vec![Cluster(1), Cluster(2)]
        }
    );
}

#[test]
fn close_points_share_a_cluster() {
    let x = vec![vec![0.0, 0.0], vec![1.0, 1.0]];
    assert_eq!(run(&x, 1.5, 2), vec![Cluster(1), Cluster(1)]);
}

#[test]
fn far_points_are_singleton_clusters() {
    let x = vec![vec![0.0, 0.0], vec![10.0, 10.0]];
    assert_eq!(run(&x, 1.0, 1), vec![Cluster(1), Cluster(2)]);
}

#[test]
fn empty_input_gives_no_labels() {
    let x: Vec<Vec<f64>> = vec![];
    assert_eq!(run(&x, 1.0, 3), vec![]);
    assert_eq!(run(&x, 0.0, 0), vec![]);
}

#[test]
fn sparse_points_are_noise() {
    let x = vec![vec![0.0, 0.0], vec![5.0, 5.0]];
    assert_eq!(run(&x, 1.0, 2), vec![Noise, Noise]);
}

#[test]
fn noise_is_upgraded_by_a_later_core_point() {
    let x = on_line(&[0.0, 1.0, 2.0]);
    assert_eq!(run(&x, 1.0, 3), vec![Cluster(1), Cluster(1), Cluster(1)]);
}

#[test]
fn border_point_joins_the_first_cluster() {
    let x = on_line(&[1.4, 0.0, 0.2, 0.5, 2.3, 2.6, 2.8]);
    assert_eq!(
        run(&x, 1.0, 4),
        vec![
            Cluster(1),
            Cluster(1),
            Cluster(1),
            Cluster(1),
            Cluster(2),
            Cluster(2),
            Cluster(2)
        ]
    );
}

#[test]
fn min_points_zero_makes_every_point_core() {
    let x = vec![vec![0.0, 0.0], vec![10.0, 10.0], vec![10.0, 10.5]];
    assert_eq!(run(&x, 1.0, 0), vec![Cluster(1), Cluster(2), Cluster(2)]);
}

#[test]
fn duplicate_points_are_tracked_by_index() {
    let x = vec![vec![1.0, 1.0], vec![1.0, 1.0], vec![1.0, 1.0]];
    assert_eq!(run(&x, 0.0, 2), vec![Cluster(1), Cluster(1), Cluster(1)]);
    assert_eq!(run(&x, 0.0, 4), vec![Noise, Noise, Noise]);
}

#[test]
fn chained_core_points_share_a_cluster() {
    let x = on_line(&[0.0, 1.0, 2.0, 3.0, 4.0, 20.0, 21.0, 40.0]);
    assert_eq!(
        run(&x, 1.0, 2),
        vec![
            Cluster(1),
            Cluster(1),
            Cluster(1),
            Cluster(1),
            Cluster(1),
            Cluster(2),
            Cluster(2),
            Noise
        ]
    );
}

#[test]
fn ids_follow_discovery_order() {
    let x = on_line(&[50.0, 0.0, 50.5, 100.0, 0.5, 100.5]);
    assert_eq!(
        run(&x, 1.0, 2),
        vec![
            Cluster(1),
            Cluster(2),
            Cluster(1),
            Cluster(3),
            Cluster(2),
            Cluster(3)
        ]
    );
}

#[test]
fn repeated_runs_agree() {
    let x = on_line(&[0.0, 0.7, 1.4, 5.0, 5.2, 9.0, 1.9]);
    let within = relation(&x, 1.0);
    assert_eq!(dbscan(&within, 2), dbscan(&within, 2));
}

#[test]
fn every_point_gets_one_label() {
    let x = on_line(&[0.0, 0.7, 1.4, 5.0, 5.2, 9.0, 1.9, 30.0, 30.1]);
    for min_points in 0..5 {
        assert_eq!(run(&x, 1.0, min_points).len(), x.len());
    }
}

#[test]
fn query_includes_the_point_itself() {
    let x = vec![vec![0.0, 0.0], vec![3.0, 4.0], vec![0.5, 0.0]];
    assert_eq!(nearest_neighbors(&row(&x[1], &x, 0.0)), vec![1]);
    assert_eq!(nearest_neighbors(&row(&x[0], &x, 1.0)), vec![0, 2]);
}

#[test]
fn query_boundary_is_inclusive() {
    let x = vec![vec![0.0, 0.0], vec![3.0, 4.0], vec![9.0, 9.0]];
    assert_eq!(nearest_neighbors(&row(&x[0], &x, 5.0)), vec![0, 1]);
    assert_eq!(nearest_neighbors(&vec![]), Vec::<usize>::new());
}

#[test]
fn relation_check_rejects_asymmetric_or_ragged_rows() {
    assert!(check_relation(&vec![vec![true, false], vec![false, true]]));
    assert!(check_relation(&vec![]));
    assert!(!check_relation(&vec![vec![true, true], vec![false, true]]));
    assert!(!check_relation(&vec![vec![true], vec![false, true]]));
}

#[test]
fn assign_keeps_the_first_label() {
    let mut labels = vec![None, Some(Noise), Some(Cluster(2))];
    assign(&mut labels, 0, Cluster(1));
    assign(&mut labels, 1, Cluster(1));
    assign(&mut labels, 2, Noise);
    assert_eq!(labels, vec![Some(Cluster(1)), Some(Noise), Some(Cluster(2))]);
}

#[test]
fn upgrade_moves_only_noise() {
    let mut labels = vec![None, Some(Noise), Some(Cluster(2))];
    upgrade(&mut labels, 0, 3);
    upgrade(&mut labels, 1, 3);
    upgrade(&mut labels, 2, 3);
    assert_eq!(labels, vec![None, Some(Cluster(3)), Some(Cluster(2))]);
}
