//! Clustering points of the plane and of the line, with their neighborhoods
//! found by a ball tree.

use std::collections::HashMap;

use ndarray::{arr2, aview2, Array2, ArrayView2};
use optics::neighborhood::{check_neighborhoods, nearest_wanted};
use optics::{Neighbor, Neighborhood, Optics, Scalar};
use petal_neighbors::distance::{Euclidean, Metric};
use petal_neighbors::BallTree;

fn scalar(x: f64) -> Scalar {
    Scalar::from_bits(x.to_bits())
}

fn number(s: Scalar) -> f64 {
    f64::from_bits(s.to_bits())
}

/// The neighborhood of every row of `points` within `eps`.
fn neighborhoods(points: ArrayView2<f64>, eps: f64) -> Vec<Neighborhood> {
    if points.nrows() == 0 {
        return Vec::new();
    }
    let metric = Euclidean::default();
    let db = BallTree::new(points, metric.clone()).expect("non-empty array");
    let mut hoods = Vec::new();
    for p in points.rows() {
        let mut neighbors = Vec::new();
        for o in db.query_radius(&p, eps) {
            let distance = scalar(metric.distance(&points.row(o), &p));
            neighbors.push(Neighbor { index: o, distance });
        }
        let nearest: Vec<Scalar> =
            db.query(&p, nearest_wanted(neighbors.len())).1.into_iter().map(scalar).collect();
        hoods.push(Neighborhood::new(neighbors, &nearest));
    }
    assert!(check_neighborhoods(&hoods));
    hoods
}

fn plane() -> Array2<f64> {
    arr2(&[[1.0, 2.0], [1.1, 2.2], [0.9, 1.9], [1.0, 2.1], [-2.0, 3.0], [-2.2, 3.1]])
}

fn line() -> Array2<f64> {
    arr2(&[[0.], [2.], [3.], [4.], [6.], [8.], [10.]])
}

#[test]
fn default() {
    let optics = Optics::default();
    assert_eq!(optics.eps().to_single().map(f32::from_bits), Some(0.5));
    assert_eq!(number(optics.eps()), 0.5);
    assert_eq!(optics.min_samples(), 5);
}

#[test]
fn optics() {
    let data = plane();

    let mut model = Optics::new(scalar(0.5), 2);
    let (mut clusters, mut outliers) = model.fit(neighborhoods(data.view(), 0.5));
    outliers.sort_unstable();
    for (_, v) in clusters.iter_mut() {
        v.sort_unstable();
    }

    let mut expected: HashMap<usize, Vec<usize>> = HashMap::new();
    expected.insert(0, vec![0, 1, 2, 3]);
    expected.insert(1, vec![4, 5]);
    assert_eq!(expected, clusters);
    assert_eq!(Vec::<usize>::new(), outliers);
}

#[test]
fn core_samples() {
    let data = line();
    let mut model = Optics::new(scalar(1.01), 1);
    let (clusters, outliers) = model.fit(neighborhoods(data.view(), 1.01));
    assert_eq!(clusters.len(), 5); // {0: [0], 1: [1, 2, 3], 2: [4], 3: [5], 4: [6]}
    assert!(outliers.is_empty());
}

#[test]
fn fit_empty() {
    let data: Vec<[f64; 8]> = vec![];
    let input = aview2(&data);

    let mut model = Optics::new(scalar(0.5), 2);
    let (clusters, outliers) = model.fit(neighborhoods(input, 0.5));
    assert!(clusters.is_empty());
    assert!(outliers.is_empty());
}

#[test]
fn core_samples_members() {
    let data = line();
    let mut model = Optics::new(scalar(1.01), 1);
    let (clusters, outliers) = model.fit(neighborhoods(data.view(), 1.01));
    let mut expected: HashMap<usize, Vec<usize>> = HashMap::new();
    expected.insert(0, vec![0]);
    expected.insert(1, vec![1, 2, 3]);
    expected.insert(2, vec![4]);
    expected.insert(3, vec![5]);
    expected.insert(4, vec![6]);
    assert_eq!(expected, clusters);
    assert_eq!(Vec::<usize>::new(), outliers);
    assert_eq!(model.ordered(), &vec![0, 1, 2, 3, 4, 5, 6]);
    let reach: Vec<f64> = model.reachability().iter().map(|r| number(*r)).collect();
    assert!(reach[0].is_nan());
    assert!(reach[1].is_nan());
    assert_eq!(reach[2], 1.0);
    assert_eq!(reach[3], 1.0);
    assert!(reach[4].is_nan());
    assert!(reach[5].is_nan());
    assert!(reach[6].is_nan());
}

#[test]
fn fit_empty_keeps_the_last_traversal() {
    let data = line();
    let mut model = Optics::new(scalar(1.01), 1);
    let _ = model.fit(neighborhoods(data.view(), 1.01));
    let (clusters, outliers) = model.fit(Vec::new());
    assert!(clusters.is_empty());
    assert!(outliers.is_empty());
    assert_eq!(model.ordered().len(), 7);
    assert_eq!(model.neighborhoods().len(), 7);
    let (again, _) = model.extract_clusters_and_outliers(scalar(1.01));
    assert_eq!(again.len(), 5);
}

#[test]
fn fit_twice_gives_the_same() {
    let data = plane();
    let mut first = Optics::new(scalar(0.5), 2);
    let mut second = Optics::new(scalar(0.5), 2);
    let found_first = first.fit(neighborhoods(data.view(), 0.5));
    let found_second = second.fit(neighborhoods(data.view(), 0.5));
    let found_again = second.fit(neighborhoods(data.view(), 0.5));
    assert_eq!(found_first, found_second);
    assert_eq!(found_first, found_again);
    assert_eq!(first.ordered(), second.ordered());
    let bits = |m: &Optics| m.reachability().iter().map(|r| r.to_bits()).collect::<Vec<u64>>();
    assert_eq!(bits(&first), bits(&second));
}

#[test]
fn extraction_covers_the_order_once() {
    let data = plane();
    let mut model = Optics::new(scalar(0.5), 2);
    let _ = model.fit(neighborhoods(data.view(), 0.5));
    for eps in [0.0, 0.1, 0.15, 0.2, 0.3, 0.5] {
        let (clusters, outliers) = model.extract_clusters_and_outliers(scalar(eps));
        let mut listed: Vec<usize> = outliers.clone();
        for c in 0..clusters.len() {
            listed.extend(clusters[&c].iter().copied());
        }
        listed.sort_unstable();
        let mut visited = model.ordered().clone();
        visited.sort_unstable();
        assert_eq!(listed, visited);
    }
}

#[test]
fn wider_threshold_keeps_clustered_points() {
    let data = plane();
    let mut model = Optics::new(scalar(0.5), 2);
    let _ = model.fit(neighborhoods(data.view(), 0.5));
    let steps = [0.0, 0.05, 0.1, 0.12, 0.15, 0.2, 0.23, 0.3, 0.4, 0.5];
    let mut before: Vec<usize> = Vec::new();
    for eps in steps {
        let (clusters, _) = model.extract_clusters_and_outliers(scalar(eps));
        let mut members: Vec<usize> = clusters.values().flatten().copied().collect();
        members.sort_unstable();
        for p in &before {
            assert!(members.contains(p));
        }
        before = members;
    }
    assert_eq!(before, vec![0, 1, 2, 3, 4, 5]);
}

#[test]
fn narrow_threshold_splits_the_plane() {
    let data = plane();
    let mut model = Optics::new(scalar(0.5), 2);
    let _ = model.fit(neighborhoods(data.view(), 0.5));
    // The nearest pairs are 0.1 apart (points 0 and 3); the two on the left
    // are 0.2236 apart.
    let (clusters, mut outliers) = model.extract_clusters_and_outliers(scalar(0.12));
    outliers.sort_unstable();
    assert_eq!(clusters.len(), 1);
    assert_eq!(clusters[&0], vec![0, 3]);
    assert_eq!(outliers, vec![1, 2, 4, 5]);
}

#[test]
fn core_distance_is_the_second_nearest_whatever_min_samples() {
    let data = line();
    let hoods = neighborhoods(data.view(), 2.5);
    // The point at 3 has those at 2, 3 and 4 within 2.5; the nearest other
    // point is 1 away.
    assert_eq!(hoods[2].neighbors.len(), 3);
    assert_eq!(number(hoods[2].core_distance), 1.0);
    // The point at 0 has only the one at 2 beside itself.
    assert_eq!(hoods[0].neighbors.len(), 2);
    assert_eq!(number(hoods[0].core_distance), 2.0);
    for min_samples in [1, 2, 3, 5, 10] {
        let mut model = Optics::new(scalar(2.5), min_samples);
        let _ = model.fit(neighborhoods(data.view(), 2.5));
        assert_eq!(number(model.neighborhoods()[2].core_distance), 1.0);
        assert_eq!(number(model.neighborhoods()[0].core_distance), 2.0);
    }
    let alone = neighborhoods(data.view(), 0.5);
    for hood in &alone {
        assert_eq!(hood.neighbors.len(), 1);
        assert_eq!(hood.core_distance.to_bits(), 0);
    }
}

#[test]
fn members_are_the_dense_points() {
    let data = plane();
    let mut model = Optics::new(scalar(0.5), 3);
    let _ = model.fit(neighborhoods(data.view(), 0.5));
    for eps in [0.0, 0.1, 0.12, 0.15, 0.2, 0.23, 0.3, 0.5] {
        let (clusters, outliers) = model.extract_clusters_and_outliers(scalar(eps));
        for &p in model.ordered() {
            let reach = number(model.reachability()[p]);
            let hood = &model.neighborhoods()[p];
            let dense = (reach.is_normal() && reach <= eps)
                || (hood.neighbors.len() >= 3 && number(hood.core_distance) <= eps);
            assert_eq!(clusters.values().any(|c| c.contains(&p)), dense, "{p} at {eps}");
            assert_eq!(outliers.contains(&p), !dense, "{p} at {eps}");
        }
    }
}

#[test]
fn visited_points_are_core_points_and_their_neighbors() {
    let data = line();
    for min_samples in [1, 2, 3, 4] {
        let hoods = neighborhoods(data.view(), 1.01);
        let mut reachable: Vec<usize> = Vec::new();
        for (p, hood) in hoods.iter().enumerate() {
            let near_core = hoods.iter().any(|c| {
                c.neighbors.len() >= min_samples && c.neighbors.iter().any(|n| n.index == p)
            });
            if hood.neighbors.len() >= min_samples || near_core {
                reachable.push(p);
            }
        }
        let mut model = Optics::new(scalar(1.01), min_samples);
        let _ = model.fit(hoods);
        let mut visited = model.ordered().clone();
        visited.sort_unstable();
        assert_eq!(visited, reachable, "with {min_samples}");
    }
    // with two neighbors to a core point, only the points at 2, 3 and 4 count
    let mut model = Optics::new(scalar(1.01), 2);
    let (clusters, outliers) = model.fit(neighborhoods(data.view(), 1.01));
    assert_eq!(model.ordered(), &vec![1, 2, 3]);
    assert_eq!(clusters.len(), 1);
    assert_eq!(clusters[&0], vec![1, 2, 3]);
    assert!(outliers.is_empty());
}

#[test]
fn reachability_is_the_smallest_from_earlier_core_points() {
    let data = plane();
    let mut model = Optics::new(scalar(0.5), 2);
    let _ = model.fit(neighborhoods(data.view(), 0.5));
    let order = model.ordered().clone();
    let hoods = model.neighborhoods();
    for (i, &p) in order.iter().enumerate() {
        let mut smallest = f64::INFINITY;
        for &c in &order[..i] {
            for n in &hoods[c].neighbors {
                if n.index == p {
                    let core = number(hoods[c].core_distance);
                    let distance = number(n.distance);
                    smallest = smallest.min(if distance > core { distance } else { core });
                }
            }
        }
        let reach = number(model.reachability()[p]);
        if smallest.is_finite() {
            assert_eq!(reach, smallest, "point {p}");
        } else {
            assert!(reach.is_nan(), "point {p}");
        }
    }
    assert_eq!(order.len(), 6);
}
