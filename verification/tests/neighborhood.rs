//! Neighborhoods and their core distances.

use optics::neighborhood::{
    check_neighborhoods, nearest_wanted, Neighbor, Neighborhood, CORE_NEAREST,
};
use optics::scalar::Scalar;

fn scalar(x: f64) -> Scalar {
    Scalar::from_bits(x.to_bits())
}

fn number(s: Scalar) -> f64 {
    f64::from_bits(s.to_bits())
}

fn neighbor(index: usize, distance: f64) -> Neighbor {
    Neighbor { index, distance: scalar(distance) }
}

#[test]
fn two_nearest_are_wanted_unless_alone() {
    assert_eq!(CORE_NEAREST, 2);
    assert_eq!(nearest_wanted(0), 0);
    assert_eq!(nearest_wanted(1), 0);
    assert_eq!(nearest_wanted(2), 2);
    assert_eq!(nearest_wanted(3), 2);
    assert_eq!(nearest_wanted(usize::MAX), 2);
}

#[test]
fn core_distance_is_the_second_of_the_nearest() {
    let hood = Neighborhood::new(
        vec![neighbor(0, 0.0), neighbor(3, 0.7), neighbor(5, 0.25), neighbor(6, 0.9)],
        &vec![scalar(0.0), scalar(0.25)],
    );
    assert_eq!(number(hood.core_distance), 0.25);
    assert_eq!(hood.neighbors.len(), 4);
    assert_eq!(hood.neighbors[2].index, 5);
    assert_eq!(number(hood.neighbors[2].distance), 0.25);
    // longer lists of nearest points change nothing
    let hood = Neighborhood::new(
        vec![neighbor(0, 0.0), neighbor(3, 0.7)],
        &vec![scalar(0.0), scalar(0.7), scalar(1.5)],
    );
    assert_eq!(number(hood.core_distance), 0.7);
}

#[test]
fn core_distance_is_zero_when_alone() {
    let hood = Neighborhood::new(vec![neighbor(4, 0.0)], &Vec::new());
    assert_eq!(hood.core_distance.to_bits(), 0);
    let hood = Neighborhood::new(vec![neighbor(4, 0.0)], &vec![scalar(0.0), scalar(3.0)]);
    assert_eq!(hood.core_distance.to_bits(), 0);
    let hood = Neighborhood::new(Vec::new(), &Vec::new());
    assert_eq!(hood.core_distance.to_bits(), 0);
    assert!(hood.neighbors.is_empty());
}

#[test]
fn core_points_have_enough_neighbors() {
    let hood = Neighborhood::new(
        vec![neighbor(0, 0.0), neighbor(1, 0.5), neighbor(2, 0.6)],
        &vec![scalar(0.0), scalar(0.5)],
    );
    assert!(hood.is_core(0));
    assert!(hood.is_core(1));
    assert!(hood.is_core(3));
    assert!(!hood.is_core(4));
}

#[test]
fn neighbors_must_be_points() {
    let near = vec![scalar(0.0), scalar(1.0)];
    assert!(check_neighborhoods(&Vec::new()));
    let good = vec![
        Neighborhood::new(vec![neighbor(0, 0.0), neighbor(1, 1.0)], &near),
        Neighborhood::new(vec![neighbor(0, 1.0), neighbor(1, 0.0)], &near),
    ];
    assert!(check_neighborhoods(&good));
    let bad = vec![
        Neighborhood::new(vec![neighbor(0, 0.0), neighbor(1, 1.0)], &near),
        Neighborhood::new(vec![neighbor(0, 1.0), neighbor(2, 0.0)], &near),
    ];
    assert!(!check_neighborhoods(&bad));
    let bad = vec![Neighborhood::new(vec![neighbor(1, 0.0)], &near)];
    assert!(!check_neighborhoods(&bad));
}
