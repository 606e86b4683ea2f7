//! The traversal on neighborhoods written out by hand.

use optics::neighborhood::{Neighbor, Neighborhood};
use optics::optics::Optics;
use optics::scalar::Scalar;
use optics::traversal::{process, reachability_distance, traverse, update};

fn scalar(x: f64) -> Scalar {
    Scalar::from_bits(x.to_bits())
}

fn numbers(reach: &[Scalar]) -> Vec<f64> {
    reach.iter().map(|r| f64::from_bits(r.to_bits())).collect()
}

fn hood(core_distance: f64, neighbors: &[(usize, f64)]) -> Neighborhood {
    Neighborhood {
        neighbors: neighbors
            .iter()
            .map(|&(index, distance)| Neighbor { index, distance: scalar(distance) })
            .collect(),
        core_distance: scalar(core_distance),
    }
}

/// Points at 0, 1, 2.5 and 10 on a line, with radius 2.
fn four_on_a_line() -> Vec<Neighborhood> {
    vec![
        hood(1.0, &[(0, 0.0), (1, 1.0)]),
        hood(1.0, &[(0, 1.0), (1, 0.0), (2, 1.5)]),
        hood(1.5, &[(1, 1.5), (2, 0.0)]),
        hood(0.0, &[(3, 0.0)]),
    ]
}

/// Points at 0, 1 and 3 on a line, with radius 3.
fn three_on_a_line() -> Vec<Neighborhood> {
    vec![
        hood(1.0, &[(0, 0.0), (1, 1.0), (2, 3.0)]),
        hood(1.0, &[(0, 1.0), (1, 0.0), (2, 2.0)]),
        hood(2.0, &[(0, 3.0), (1, 2.0), (2, 0.0)]),
    ]
}

#[test]
fn reachability_distance_is_no_less_than_the_core_distance() {
    let h = hood(1.0, &[(0, 0.0), (1, 1.0), (2, 1.5), (3, 0.25)]);
    assert_eq!(numbers(&[reachability_distance(0, &h)]), vec![1.0]);
    assert_eq!(numbers(&[reachability_distance(1, &h)]), vec![1.0]);
    assert_eq!(numbers(&[reachability_distance(2, &h)]), vec![1.5]);
    assert_eq!(numbers(&[reachability_distance(3, &h)]), vec![1.0]);
}

#[test]
fn reachability_distance_with_what_is_not_a_number() {
    let h = hood(1.0, &[(0, f64::NAN), (1, f64::INFINITY)]);
    assert_eq!(numbers(&[reachability_distance(0, &h)]), vec![1.0]);
    assert_eq!(numbers(&[reachability_distance(1, &h)]), vec![f64::INFINITY]);
    let h = hood(f64::NAN, &[(0, 2.0)]);
    assert!(numbers(&[reachability_distance(0, &h)])[0].is_nan());
}

#[test]
fn traverse_visits_in_order_of_reachability() {
    let (ordered, reach) = traverse(&four_on_a_line(), 2);
    assert_eq!(ordered, vec![0, 1, 2]);
    let reach = numbers(&reach);
    assert!(reach[0].is_nan());
    assert_eq!(reach[1], 1.0);
    assert_eq!(reach[2], 1.5);
    assert!(reach[3].is_nan());
}

#[test]
fn traverse_starts_from_core_points_only() {
    let (ordered, reach) = traverse(&four_on_a_line(), 3);
    // only the point at 1 has three points within the radius; the nearer of
    // its two neighbors is visited first
    assert_eq!(ordered, vec![1, 0, 2]);
    let reach = numbers(&reach);
    assert_eq!(reach[0], 1.0);
    assert!(reach[1].is_nan());
    assert_eq!(reach[2], 1.5);
    assert!(reach[3].is_nan());
}

#[test]
fn traverse_leaves_out_what_no_core_point_reaches() {
    let (ordered, _) = traverse(&four_on_a_line(), 2);
    assert!(!ordered.contains(&3));
    let (ordered, _) = traverse(&four_on_a_line(), 1);
    assert_eq!(ordered, vec![0, 1, 2, 3]);
    let (ordered, reach) = traverse(&four_on_a_line(), 4);
    assert!(ordered.is_empty());
    assert!(numbers(&reach).iter().all(|r| r.is_nan()));
    assert_eq!(reach.len(), 4);
}

#[test]
fn traverse_without_points() {
    let (ordered, reach) = traverse(&Vec::new(), 1);
    assert!(ordered.is_empty());
    assert!(reach.is_empty());
}

#[test]
fn traverse_keeps_the_smallest_reachability() {
    let (ordered, reach) = traverse(&three_on_a_line(), 2);
    assert_eq!(ordered, vec![0, 1, 2]);
    let reach = numbers(&reach);
    assert!(reach[0].is_nan());
    assert_eq!(reach[1], 1.0);
    // 3 from the point at 0, then 2 from the point at 1
    assert_eq!(reach[2], 2.0);
}

#[test]
fn traverse_treats_zero_as_not_set() {
    // two points in one place
    let hoods = vec![hood(0.0, &[(0, 0.0), (1, 0.0)]), hood(0.0, &[(0, 0.0), (1, 0.0)])];
    let (ordered, reach) = traverse(&hoods, 2);
    assert_eq!(ordered, vec![0, 1]);
    assert!(numbers(&reach)[0].is_nan());
    assert_eq!(reach[1].to_bits(), 0);
    let mut model = Optics::new(scalar(0.5), 2);
    let (clusters, outliers) = model.fit(hoods);
    assert_eq!(clusters.len(), 2);
    assert_eq!(clusters[&0], vec![0]);
    assert_eq!(clusters[&1], vec![1]);
    assert!(outliers.is_empty());
}

#[test]
fn update_sets_lowers_and_queues() {
    let hoods = three_on_a_line();
    let visited = vec![true, false, false];
    let mut reach = vec![Scalar::nan(), Scalar::nan(), scalar(2.5)];
    let mut seeds = vec![2];
    update(&hoods[0], &visited, &mut seeds, &mut reach);
    // the point at 1 gets its first reachability and joins; that of the
    // point at 3 stays, since 3 is not smaller than 2.5
    assert_eq!(numbers(&reach[1..]), vec![1.0, 2.5]);
    assert_eq!(seeds, vec![2, 1]);

    let visited = vec![true, true, false];
    update(&hoods[1], &visited, &mut seeds, &mut reach);
    // lowered to 2, and not queued again
    assert_eq!(numbers(&reach[1..]), vec![1.0, 2.0]);
    assert_eq!(seeds, vec![2, 1]);
}

#[test]
fn update_queues_again_what_has_no_normal_reachability() {
    let hoods = three_on_a_line();
    let visited = vec![true, false, false];
    let mut reach = vec![Scalar::nan(), Scalar::zero(), scalar(f64::INFINITY)];
    let mut seeds = vec![1, 2];
    update(&hoods[0], &visited, &mut seeds, &mut reach);
    assert_eq!(numbers(&reach[1..]), vec![1.0, 3.0]);
    assert_eq!(seeds, vec![2, 2, 1, 1]);
}

#[test]
fn update_passes_over_visited_neighbors() {
    let hoods = three_on_a_line();
    let visited = vec![true, true, true];
    let mut reach = vec![Scalar::nan(), scalar(9.0), scalar(9.0)];
    let mut seeds = Vec::new();
    update(&hoods[0], &visited, &mut seeds, &mut reach);
    assert_eq!(numbers(&reach[1..]), vec![9.0, 9.0]);
    assert!(seeds.is_empty());
}

#[test]
fn process_expands_from_one_point() {
    let hoods = four_on_a_line();
    let mut ordered = Vec::new();
    let mut reach = vec![Scalar::nan(); 4];
    let mut visited = vec![false; 4];
    process(2, 2, &hoods, &mut ordered, &mut reach, &mut visited);
    assert_eq!(ordered, vec![2, 1, 0]);
    assert_eq!(visited, vec![true, true, true, false]);
    let reach = numbers(&reach);
    assert_eq!(reach[0], 1.0);
    assert_eq!(reach[1], 1.5);
    assert!(reach[2].is_nan());
    assert!(reach[3].is_nan());
}

#[test]
fn process_stops_at_a_point_that_is_no_core_point() {
    let hoods = four_on_a_line();
    let mut ordered = vec![7];
    let mut reach = vec![Scalar::nan(); 4];
    let mut visited = vec![false; 4];
    process(3, 2, &hoods, &mut ordered, &mut reach, &mut visited);
    assert_eq!(ordered, vec![7, 3]);
    assert_eq!(visited, vec![false, false, false, true]);
    // a visited point is not visited again
    process(3, 1, &hoods, &mut ordered, &mut reach, &mut visited);
    assert_eq!(ordered, vec![7, 3]);
}
