//! Clusters and outliers read off orders written out by hand.

use std::collections::HashMap;

use optics::extraction::extract;
use optics::neighborhood::{Neighbor, Neighborhood};
use optics::optics::Optics;
use optics::scalar::Scalar;

fn scalar(x: f64) -> Scalar {
    Scalar::from_bits(x.to_bits())
}

fn scalars(xs: &[f64]) -> Vec<Scalar> {
    xs.iter().map(|x| scalar(*x)).collect()
}

/// A neighborhood with `count` neighbors and the given core distance.
fn hood(count: usize, core_distance: f64) -> Neighborhood {
    Neighborhood {
        neighbors: (0..count).map(|_| Neighbor { index: 0, distance: scalar(0.0) }).collect(),
        core_distance: scalar(core_distance),
    }
}

fn clusters(groups: &[&[usize]]) -> HashMap<usize, Vec<usize>> {
    groups.iter().enumerate().map(|(c, g)| (c, g.to_vec())).collect()
}

const NAN: f64 = f64::NAN;

#[test]
fn extract_opens_and_fills_clusters() {
    let order = vec![3, 0, 2, 4, 1];
    let reach = scalars(&[0.2, 0.3, 0.4, NAN, NAN]);
    let hoods = vec![hood(3, 0.1), hood(3, 0.1), hood(3, 0.1), hood(3, 0.2), hood(3, 0.3)];
    let (found, outliers) = extract(&order, &reach, &hoods, 3, scalar(0.5));
    // 3 opens, 0 and 2 join, 4 opens, 1 joins
    assert_eq!(found, clusters(&[&[3, 0, 2], &[4, 1]]));
    assert!(outliers.is_empty());
}

#[test]
fn extract_at_the_threshold() {
    let order = vec![0, 1, 2];
    let reach = scalars(&[NAN, 0.5, 0.5000000000000001]);
    let hoods = vec![hood(2, 0.5), hood(2, 0.6), hood(2, 0.6)];
    let (found, outliers) = extract(&order, &reach, &hoods, 2, scalar(0.5));
    assert_eq!(found, clusters(&[&[0, 1]]));
    assert_eq!(outliers, vec![2]);
}

#[test]
fn extract_needs_enough_neighbors_to_open() {
    let order = vec![0, 1, 2];
    let reach = scalars(&[NAN, NAN, NAN]);
    let hoods = vec![hood(1, 0.0), hood(2, 0.1), hood(3, 0.1)];
    let (found, outliers) = extract(&order, &reach, &hoods, 2, scalar(0.5));
    assert_eq!(found, clusters(&[&[1], &[2]]));
    assert_eq!(outliers, vec![0]);
    let (found, outliers) = extract(&order, &reach, &hoods, 3, scalar(0.5));
    assert_eq!(found, clusters(&[&[2]]));
    assert_eq!(outliers, vec![0, 1]);
    // with no neighbor asked for, every point with a small core distance opens
    let (found, outliers) = extract(&order, &reach, &hoods, 0, scalar(0.05));
    assert_eq!(found, clusters(&[&[0]]));
    assert_eq!(outliers, vec![1, 2]);
}

#[test]
fn extract_before_the_first_cluster() {
    // a point that could join finds no cluster open: it is an outlier
    let order = vec![0, 1, 2];
    let reach = scalars(&[0.3, NAN, 0.3]);
    let hoods = vec![hood(2, 0.1), hood(2, 0.1), hood(2, 0.1)];
    let (found, outliers) = extract(&order, &reach, &hoods, 2, scalar(0.5));
    assert_eq!(found, clusters(&[&[1, 2]]));
    assert_eq!(outliers, vec![0]);
}

#[test]
fn extract_takes_only_normal_reachabilities_as_set() {
    let order = vec![0, 1, 2, 3, 4, 5];
    let tiny = f64::MIN_POSITIVE;
    let reach = scalars(&[NAN, 0.0, tiny / 2.0, f64::INFINITY, -1.0, tiny]);
    let hoods: Vec<Neighborhood> = (0..6).map(|_| hood(1, 0.0)).collect();
    let (found, outliers) = extract(&order, &reach, &hoods, 1, scalar(0.5));
    // zero, a subnormal and infinity are not set: each of these points opens
    // a cluster; the negative and the smallest normal number are set
    assert_eq!(found, clusters(&[&[0], &[1], &[2], &[3, 4, 5]]));
    assert!(outliers.is_empty());
}

#[test]
fn extract_with_a_threshold_that_is_not_a_number() {
    let order = vec![0, 1];
    let reach = scalars(&[NAN, 0.1]);
    let hoods = vec![hood(2, 0.1), hood(2, 0.1)];
    let (found, outliers) = extract(&order, &reach, &hoods, 2, scalar(NAN));
    assert!(found.is_empty());
    assert_eq!(outliers, vec![0, 1]);
}

#[test]
fn extract_from_nothing() {
    let (found, outliers) = extract(&Vec::new(), &Vec::new(), &Vec::new(), 2, scalar(0.5));
    assert!(found.is_empty());
    assert!(outliers.is_empty());
    let model = Optics::new(scalar(0.5), 2);
    let (found, outliers) = model.extract_clusters_and_outliers(scalar(0.5));
    assert!(found.is_empty());
    assert!(outliers.is_empty());
    assert!(model.ordered().is_empty());
    assert!(model.reachability().is_empty());
    assert!(model.neighborhoods().is_empty());
    assert_eq!(model.eps().to_bits(), 0.5f64.to_bits());
    assert_eq!(model.min_samples(), 2);
}

#[test]
fn extract_lists_only_visited_points() {
    let order = vec![2, 0];
    let reach = scalars(&[0.2, 0.1, NAN]);
    let hoods = vec![hood(2, 0.1), hood(2, 0.1), hood(2, 0.1)];
    let (found, outliers) = extract(&order, &reach, &hoods, 2, scalar(0.5));
    assert_eq!(found, clusters(&[&[2, 0]]));
    assert!(outliers.is_empty());
}

#[test]
fn extract_at_other_thresholds_after_a_fit() {
    // points at 0, 1, 2.5 and 10 on a line, with radius 2
    let near = |pairs: &[(usize, f64)], core: f64| Neighborhood {
        neighbors: pairs
            .iter()
            .map(|&(index, distance)| Neighbor { index, distance: scalar(distance) })
            .collect(),
        core_distance: scalar(core),
    };
    let hoods = vec![
        near(&[(0, 0.0), (1, 1.0)], 1.0),
        near(&[(0, 1.0), (1, 0.0), (2, 1.5)], 1.0),
        near(&[(1, 1.5), (2, 0.0)], 1.5),
        near(&[(3, 0.0)], 0.0),
    ];
    let mut model = Optics::new(scalar(2.0), 2);
    let (found, outliers) = model.fit(hoods);
    assert_eq!(found, clusters(&[&[0, 1, 2]]));
    assert!(outliers.is_empty());
    let (found, outliers) = model.extract_clusters_and_outliers(scalar(1.2));
    assert_eq!(found, clusters(&[&[0, 1]]));
    assert_eq!(outliers, vec![2]);
    let (found, outliers) = model.extract_clusters_and_outliers(scalar(0.5));
    assert!(found.is_empty());
    assert_eq!(outliers, vec![0, 1, 2]);
    let (found, outliers) = model.extract_clusters_and_outliers(scalar(2.0));
    assert_eq!(found, clusters(&[&[0, 1, 2]]));
    assert!(outliers.is_empty());
}
