use pathfinding_dev::nearest::{
    associate_buildings, associate_lights, flatten_points, get_k_nearest_neighbors,
    within_distance_threshold, Neighbor, DEFAULT_NEIGHBOR_COUNT, DIST_THRESHOLD_BITS,
    DOUBLED_DIST_THRESHOLD_BITS,
};
use pathfinding_dev::types::{F64Wrapper, HashablePoint, IntersectionPoint, Walkable};
use rstar::RTree;

fn point(x: f64, y: f64) -> HashablePoint {
    HashablePoint::new(x.to_bits(), y.to_bits())
}

fn near(x: f64, y: f64) -> Neighbor {
    Neighbor { point: point(x, y), distance_2: F64Wrapper(1.0e-9f64.to_bits()) }
}

fn at(x: f64, y: f64, distance_2: f64) -> Neighbor {
    Neighbor { point: point(x, y), distance_2: F64Wrapper(distance_2.to_bits()) }
}

#[test]
fn distance_constants_are_the_bit_patterns() {
    assert_eq!(DIST_THRESHOLD_BITS, 0.000000012949080002809418f64.to_bits());
    assert_eq!(DOUBLED_DIST_THRESHOLD_BITS, (0.000000012949080002809418f64 * 2.0).to_bits());
    assert_eq!(DEFAULT_NEIGHBOR_COUNT, 5);
}

#[test]
fn the_threshold_itself_is_near() {
    let threshold: f64 = 0.000000012949080002809418 * 2.0;
    assert!(within_distance_threshold(&F64Wrapper(threshold.to_bits())));
    assert!(within_distance_threshold(&F64Wrapper(0.0f64.to_bits())));
    assert!(within_distance_threshold(&F64Wrapper(1.0e-9f64.to_bits())));
    assert!(!within_distance_threshold(&F64Wrapper(threshold.to_bits() + 1)));
    assert!(!within_distance_threshold(&F64Wrapper(1.0f64.to_bits())));
    assert!(!within_distance_threshold(&F64Wrapper(f64::NAN.to_bits())));
    assert!(!within_distance_threshold(&F64Wrapper(f64::INFINITY.to_bits())));
}

#[test]
fn a_light_near_several_sample_points_is_associated_once() {
    let light = near(-71.05, 42.36);
    let found = vec![vec![light], vec![light], vec![light, near(-71.06, 42.37)], vec![light]];
    let neighbors = get_k_nearest_neighbors(5, &found);
    assert_eq!(
        neighbors,
        vec![vec![point(-71.05, 42.36)], vec![], vec![point(-71.06, 42.37)], vec![]]
    );
    let street = Walkable { id: Some(9), segments: vec![point(0.0, 0.0), point(1.0, 1.0)], lights: vec![], intersection_points: vec![] };
    let lit = associate_lights(&street, 5, &found);
    let times = lit.lights.iter().filter(|p| **p == point(-71.05, 42.36)).count();
    assert_eq!(times, 1);
    assert_eq!(lit.lights, vec![point(-71.05, 42.36), point(-71.06, 42.37)]);
}

#[test]
fn a_light_too_far_away_is_left_out() {
    let threshold: f64 = 0.000000012949080002809418 * 2.0;
    let found = vec![vec![
        at(1.0, 1.0, threshold),
        at(2.0, 2.0, f64::from_bits(threshold.to_bits() + 1)),
        at(3.0, 3.0, f64::NAN),
        at(4.0, 4.0, 0.0),
    ]];
    assert_eq!(get_k_nearest_neighbors(5, &found), vec![vec![point(1.0, 1.0), point(4.0, 4.0)]]);
}

#[test]
fn only_the_first_k_are_considered() {
    let found = vec![vec![near(1.0, 0.0), near(2.0, 0.0), near(3.0, 0.0), near(4.0, 0.0)]];
    assert_eq!(get_k_nearest_neighbors(2, &found), vec![vec![point(1.0, 0.0), point(2.0, 0.0)]]);
    assert_eq!(get_k_nearest_neighbors(0, &found), vec![Vec::<HashablePoint>::new()]);
    assert_eq!(get_k_nearest_neighbors(9, &found).concat().len(), 4);
}

#[test]
fn a_light_beyond_k_does_not_count_as_seen() {
    let found = vec![vec![near(1.0, 0.0), near(2.0, 0.0)], vec![near(2.0, 0.0)]];
    assert_eq!(
        get_k_nearest_neighbors(1, &found),
        vec![vec![point(1.0, 0.0)], vec![point(2.0, 0.0)]]
    );
}

#[test]
fn a_light_that_was_too_far_can_be_accepted_later() {
    let found = vec![vec![at(1.0, 0.0, 1.0)], vec![at(1.0, 0.0, 1.0e-9)]];
    assert_eq!(
        get_k_nearest_neighbors(5, &found),
        vec![Vec::<HashablePoint>::new(), vec![point(1.0, 0.0)]]
    );
}

#[test]
fn the_same_light_twice_for_one_sample_point() {
    let found = vec![vec![near(1.0, 0.0), near(1.0, 0.0), near(2.0, 0.0)]];
    assert_eq!(get_k_nearest_neighbors(5, &found), vec![vec![point(1.0, 0.0), point(2.0, 0.0)]]);
}

#[test]
fn lights_that_differ_in_one_bit_are_both_accepted() {
    let a = HashablePoint::new(1.0f64.to_bits(), 2.0f64.to_bits());
    let b = HashablePoint::new(1.0f64.to_bits() + 1, 2.0f64.to_bits());
    let close = F64Wrapper(0);
    let found = vec![vec![
        Neighbor { point: a, distance_2: close },
        Neighbor { point: b, distance_2: close },
    ]];
    assert_eq!(get_k_nearest_neighbors(5, &found), vec![vec![a, b]]);
}

#[test]
fn no_sample_points_and_no_features() {
    assert_eq!(get_k_nearest_neighbors(5, &Vec::new()), Vec::<Vec<HashablePoint>>::new());
    assert_eq!(
        get_k_nearest_neighbors(5, &vec![vec![], vec![]]),
        vec![Vec::<HashablePoint>::new(), Vec::new()]
    );
}

#[test]
fn flatten_lays_the_groups_end_to_end() {
    let groups = vec![vec![point(1.0, 0.0)], vec![], vec![point(2.0, 0.0), point(3.0, 0.0)]];
    assert_eq!(flatten_points(&groups), vec![point(1.0, 0.0), point(2.0, 0.0), point(3.0, 0.0)]);
    assert_eq!(flatten_points(&Vec::new()), Vec::new());
}

#[test]
fn associate_lights_keeps_the_rest_of_the_street() {
    let street = Walkable {
        id: Some(77),
        segments: vec![point(0.0, 0.0), point(1.0, 1.0)],
        lights: vec![point(9.0, 9.0)],
        intersection_points: vec![IntersectionPoint {
            intersection_point: point(0.5, 0.5),
            intersecting_street_ids: vec![3],
        }],
    };
    let lit = associate_lights(&street, 5, &vec![vec![near(4.0, 4.0)], vec![]]);
    assert_eq!(lit.id, Some(77));
    assert_eq!(lit.segments, street.segments);
    assert_eq!(lit.lights, vec![point(4.0, 4.0)]);
    assert_eq!(lit.intersection_points.len(), 1);
    assert_eq!(lit.intersection_points[0].intersection_point, point(0.5, 0.5));
    assert_eq!(lit.intersection_points[0].intersecting_street_ids, vec![3]);
}

#[test]
fn associate_buildings_keeps_the_street_and_its_lights() {
    let street = Walkable {
        id: None,
        segments: vec![point(0.0, 0.0), point(1.0, 1.0)],
        lights: vec![point(9.0, 9.0)],
        intersection_points: vec![],
    };
    let built = associate_buildings(&street, 5, &vec![vec![near(4.0, 4.0), near(5.0, 5.0)], vec![near(4.0, 4.0)]]);
    assert_eq!(built.id, None);
    assert_eq!(built.segments, street.segments);
    assert_eq!(built.lights, vec![point(9.0, 9.0)]);
    assert!(built.intersection_points.is_empty());
    assert_eq!(built.buildings, vec![point(4.0, 4.0), point(5.0, 5.0)]);
}

/// The features nearest to each sample point, from a spatial index.
fn query(samples: &[(f64, f64)], tree: &RTree<geo::Point>, k: usize) -> Vec<Vec<Neighbor>> {
    samples
        .iter()
        .map(|(x, y)| {
            tree.nearest_neighbor_iter_with_distance_2(&geo::Point::new(*x, *y))
                .take(k)
                .map(|(p, d)| at(p.x(), p.y(), d))
                .collect()
        })
        .collect()
}

#[test]
fn a_light_near_one_sample_point_and_nearest_to_all_is_associated_once() {
    let tree = RTree::bulk_load(vec![
        geo::Point::new(0.0005, 0.00005),
        geo::Point::new(0.5, 0.5),
    ]);
    let samples = [(0.0, 0.0), (0.001, 0.0), (0.0005, 0.0), (0.00025, 0.0), (0.00075, 0.0)];
    let found = query(&samples, &tree, 5);
    for list in found.iter() {
        assert_eq!(list[0].point, point(0.0005, 0.00005));
    }
    let near_to: Vec<bool> =
        found.iter().map(|list| within_distance_threshold(&list[0].distance_2)).collect();
    assert_eq!(near_to, vec![false, false, true, false, false]);
    let street = Walkable {
        id: Some(1),
        segments: vec![point(0.0, 0.0), point(0.001, 0.0)],
        lights: vec![],
        intersection_points: vec![],
    };
    let lit = associate_lights(&street, 5, &found);
    assert_eq!(lit.lights, vec![point(0.0005, 0.00005)]);
}

#[test]
fn a_light_near_every_sample_point_is_associated_once() {
    let tree = RTree::bulk_load(vec![geo::Point::new(0.00005, 0.00005)]);
    let samples = [(0.0, 0.0), (0.0001, 0.0), (0.00005, 0.0)];
    let found = query(&samples, &tree, 5);
    let neighbors = get_k_nearest_neighbors(5, &found);
    assert_eq!(neighbors, vec![vec![point(0.00005, 0.00005)], vec![], vec![]]);
}
