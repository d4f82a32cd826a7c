use geo::Intersects;
use pathfinding_dev::intersections::{
    assign_given_ids, assign_ids, associate_ids, find_inter_ids, get_intersection_points,
    get_nearest_intersection_points, is_same_polyline, resolve_intersections,
};
use pathfinding_dev::types::{HashablePoint, IntersectionPoint, Walkable};

fn point(x: f64, y: f64) -> HashablePoint {
    HashablePoint::new(x.to_bits(), y.to_bits())
}

fn street(id: Option<u128>, polyline: &[(f64, f64)]) -> Walkable {
    Walkable {
        id,
        segments: polyline.iter().map(|(x, y)| point(*x, *y)).collect(),
        lights: vec![],
        intersection_points: vec![],
    }
}

fn coord(p: &HashablePoint) -> geo::Coord<f64> {
    geo::Coord { x: f64::from_bits(p.x.0), y: f64::from_bits(p.y.0) }
}

/// Where two segments cross, by the determinant of the two lines.
fn line_intersection(line1: &geo::Line<f64>, line2: &geo::Line<f64>) -> Option<HashablePoint> {
    let denom = (line1.end.x - line1.start.x) * (line2.end.y - line2.start.y)
        - (line1.end.y - line1.start.y) * (line2.end.x - line2.start.x);
    if denom == 0.0 {
        return None;
    }
    let ua = ((line2.end.x - line2.start.x) * (line1.start.y - line2.start.y)
        - (line2.end.y - line2.start.y) * (line1.start.x - line2.start.x))
        / denom;
    let x = line1.start.x + ua * (line1.end.x - line1.start.x);
    let y = line1.start.y + ua * (line1.end.y - line1.start.y);
    Some(point(x, y))
}

/// The crossings of every segment of `subject` with every segment of
/// `candidate`, in the order of the segment pairs.
fn crossings(subject: &Vec<HashablePoint>, candidate: &Vec<HashablePoint>) -> Vec<HashablePoint> {
    let mut hits = Vec::new();
    for a in subject.windows(2) {
        for b in candidate.windows(2) {
            let segment1 = geo::Line::new(coord(&a[0]), coord(&a[1]));
            let segment2 = geo::Line::new(coord(&b[0]), coord(&b[1]));
            if segment1.intersects(&segment2) {
                if let Some(hit) = line_intersection(&segment1, &segment2) {
                    hits.push(hit);
                }
            }
        }
    }
    hits
}

/// Detects the intersections of all streets and resolves them.
fn detect_and_resolve(streets: &mut Vec<Walkable>) -> Vec<Walkable> {
    let candidates: Vec<Vec<HashablePoint>> = streets.iter().map(|s| s.segments.clone()).collect();
    let mut found = Vec::new();
    for s in streets.iter() {
        let hits: Vec<Vec<HashablePoint>> =
            candidates.iter().map(|c| crossings(&s.segments, c)).collect();
        found.push(get_nearest_intersection_points(&s.segments, &candidates, &hits));
    }
    get_intersection_points(streets, &found);
    associate_ids(streets)
}

#[test]
fn perpendicular_streets_cross_once_and_name_each_other() {
    let mut streets = vec![
        street(Some(1), &[(-10.0, 0.0), (0.0, 0.0), (10.0, 0.0)]),
        street(Some(2), &[(0.0, -10.0), (0.0, 0.0), (0.0, 10.0)]),
    ];
    let resolved = detect_and_resolve(&mut streets);
    assert_eq!(resolved.len(), 2);
    assert_eq!(resolved[0].intersection_points.len(), 1);
    assert_eq!(resolved[1].intersection_points.len(), 1);
    let first = &resolved[0].intersection_points[0];
    let second = &resolved[1].intersection_points[0];
    assert!(f64::from_bits(first.intersection_point.x.0).abs() < 1e-12);
    assert!(f64::from_bits(first.intersection_point.y.0).abs() < 1e-12);
    assert_eq!(first.intersection_point, point(0.0, 0.0));
    assert_eq!(second.intersection_point, point(0.0, 0.0));
    assert_eq!(first.intersecting_street_ids, vec![2]);
    assert_eq!(second.intersecting_street_ids, vec![1]);
}

#[test]
fn perpendicular_segments_without_a_shared_vertex_cross_once() {
    let mut streets = vec![
        street(Some(1), &[(-10.0, 0.0), (10.0, 0.0)]),
        street(Some(2), &[(0.0, -10.0), (0.0, 10.0)]),
    ];
    let resolved = detect_and_resolve(&mut streets);
    assert_eq!(resolved[0].intersection_points.len(), 1);
    assert_eq!(resolved[1].intersection_points.len(), 1);
    assert_eq!(resolved[0].intersection_points[0].intersection_point, point(0.0, 0.0));
    assert_eq!(resolved[1].intersection_points[0].intersection_point, point(0.0, 0.0));
    assert!(resolved[0].intersection_points[0].intersecting_street_ids.is_empty());
    assert!(resolved[1].intersection_points[0].intersecting_street_ids.is_empty());
}

#[test]
fn parallel_streets_do_not_cross() {
    let mut streets = vec![
        street(Some(1), &[(0.0, 0.0), (10.0, 0.0)]),
        street(Some(2), &[(0.0, 1.0), (10.0, 1.0)]),
    ];
    let resolved = detect_and_resolve(&mut streets);
    assert!(resolved[0].intersection_points.is_empty());
    assert!(resolved[1].intersection_points.is_empty());
}

#[test]
fn collinear_streets_that_overlap_give_no_coordinate() {
    let mut streets = vec![
        street(Some(1), &[(0.0, 0.0), (10.0, 0.0)]),
        street(Some(2), &[(5.0, 0.0), (15.0, 0.0)]),
    ];
    let resolved = detect_and_resolve(&mut streets);
    assert!(resolved[0].intersection_points.is_empty());
    assert!(resolved[1].intersection_points.is_empty());
}

#[test]
fn same_polyline_compares_every_point() {
    let a = vec![point(0.0, 0.0), point(1.0, 1.0)];
    assert!(is_same_polyline(&a, &a.clone()));
    assert!(is_same_polyline(&Vec::new(), &Vec::new()));
    assert!(!is_same_polyline(&a, &vec![point(0.0, 0.0)]));
    assert!(!is_same_polyline(&a, &vec![point(0.0, 0.0), point(1.0, 2.0)]));
    assert!(!is_same_polyline(&a, &vec![point(1.0, 1.0), point(0.0, 0.0)]));
    assert!(!is_same_polyline(&a, &vec![point(-0.0, 0.0), point(1.0, 1.0)]));
}

#[test]
fn crossings_are_kept_once_in_the_order_found() {
    let subject = vec![point(0.0, 0.0), point(10.0, 0.0)];
    let candidates = vec![
        vec![point(1.0, -1.0), point(1.0, 1.0)],
        vec![point(2.0, -1.0), point(2.0, 1.0)],
        vec![point(3.0, -1.0), point(3.0, 1.0)],
    ];
    let hits = vec![
        vec![point(5.0, 0.0), point(1.0, 0.0), point(5.0, 0.0)],
        vec![],
        vec![point(1.0, 0.0), point(3.0, 0.0), point(3.0, 0.0)],
    ];
    assert_eq!(
        get_nearest_intersection_points(&subject, &candidates, &hits),
        vec![point(5.0, 0.0), point(1.0, 0.0), point(3.0, 0.0)]
    );
}

#[test]
fn the_street_itself_is_passed_over() {
    let subject = vec![point(0.0, 0.0), point(10.0, 0.0), point(10.0, 10.0)];
    let candidates = vec![
        subject.clone(),
        vec![point(1.0, -1.0), point(1.0, 1.0)],
        subject.clone(),
    ];
    let hits = vec![vec![point(10.0, 0.0)], vec![point(1.0, 0.0)], vec![point(7.0, 7.0)]];
    assert_eq!(get_nearest_intersection_points(&subject, &candidates, &hits), vec![point(1.0, 0.0)]);
}

#[test]
fn crossings_that_differ_in_one_bit_are_both_kept() {
    let subject = vec![point(0.0, 0.0), point(10.0, 0.0)];
    let candidates = vec![vec![point(1.0, -1.0), point(1.0, 1.0)]];
    let a = HashablePoint::new(1.0f64.to_bits(), 0);
    let b = HashablePoint::new(1.0f64.to_bits() + 1, 0);
    assert_eq!(get_nearest_intersection_points(&subject, &candidates, &vec![vec![a, b, a]]), vec![a, b]);
}

#[test]
fn no_candidates_give_no_crossings() {
    let subject = vec![point(0.0, 0.0), point(10.0, 0.0)];
    assert!(get_nearest_intersection_points(&subject, &Vec::new(), &Vec::new()).is_empty());
}

#[test]
fn intersection_records_start_without_ids() {
    let mut streets = vec![
        Walkable {
            id: Some(4),
            segments: vec![point(0.0, 0.0), point(1.0, 0.0)],
            lights: vec![point(8.0, 8.0)],
            intersection_points: vec![IntersectionPoint {
                intersection_point: point(9.0, 9.0),
                intersecting_street_ids: vec![1, 2],
            }],
        },
        street(None, &[(5.0, 5.0)]),
    ];
    let found = vec![vec![point(0.5, 0.0), point(0.7, 0.0)], vec![]];
    get_intersection_points(&mut streets, &found);
    assert_eq!(streets.len(), 2);
    assert_eq!(streets[0].id, Some(4));
    assert_eq!(streets[0].segments, vec![point(0.0, 0.0), point(1.0, 0.0)]);
    assert_eq!(streets[0].lights, vec![point(8.0, 8.0)]);
    assert_eq!(streets[0].intersection_points.len(), 2);
    assert_eq!(streets[0].intersection_points[0].intersection_point, point(0.5, 0.0));
    assert_eq!(streets[0].intersection_points[1].intersection_point, point(0.7, 0.0));
    assert!(streets[0].intersection_points[0].intersecting_street_ids.is_empty());
    assert!(streets[0].intersection_points[1].intersecting_street_ids.is_empty());
    assert_eq!(streets[1].id, None);
    assert!(streets[1].intersection_points.is_empty());
}

#[test]
fn find_inter_ids_names_the_other_streets() {
    let streets = vec![
        street(Some(1), &[(0.0, 0.0), (1.0, 1.0)]),
        street(Some(2), &[(1.0, 1.0), (2.0, 2.0)]),
        street(Some(3), &[(5.0, 5.0), (6.0, 6.0)]),
        street(Some(4), &[(3.0, 3.0), (1.0, 1.0)]),
    ];
    assert_eq!(find_inter_ids(&point(1.0, 1.0), &streets, 1), vec![2, 4]);
    assert_eq!(find_inter_ids(&point(1.0, 1.0), &streets, 2), vec![1, 4]);
    assert_eq!(find_inter_ids(&point(1.0, 1.0), &streets, 9), vec![1, 2, 4]);
    assert_eq!(find_inter_ids(&point(7.0, 7.0), &streets, 1), Vec::<u128>::new());
}

#[test]
fn find_inter_ids_names_a_ring_through_the_point_once() {
    let streets = vec![
        street(Some(1), &[(0.0, 0.0), (1.0, 0.0)]),
        street(Some(2), &[(0.0, 0.0), (0.0, 1.0), (1.0, 1.0), (0.0, 0.0)]),
    ];
    assert_eq!(find_inter_ids(&point(0.0, 0.0), &streets, 1), vec![2]);
    assert_eq!(find_inter_ids(&point(0.0, 0.0), &streets, 2), vec![1]);
    let again = vec![
        street(Some(1), &[(0.0, 0.0), (1.0, 1.0)]),
        street(Some(2), &[(1.0, 1.0), (2.0, 2.0), (1.0, 1.0), (1.0, 1.0)]),
    ];
    assert_eq!(find_inter_ids(&point(1.0, 1.0), &again, 1), vec![2]);
}

#[test]
fn find_inter_ids_lists_an_id_once_for_all_streets_that_carry_it() {
    let streets = vec![
        street(Some(3), &[(1.0, 1.0)]),
        street(Some(2), &[(1.0, 1.0), (2.0, 2.0)]),
        street(Some(3), &[(0.0, 0.0), (1.0, 1.0)]),
        street(Some(4), &[(1.0, 1.0)]),
        street(Some(2), &[(1.0, 1.0)]),
    ];
    assert_eq!(find_inter_ids(&point(1.0, 1.0), &streets, 1), vec![3, 2, 4]);
    assert_eq!(find_inter_ids(&point(1.0, 1.0), &streets, 2), vec![3, 4]);
}

#[test]
fn resolving_a_ring_names_it_once() {
    let mut first = street(Some(1), &[(0.0, 0.0), (1.0, 0.0)]);
    first.intersection_points = vec![IntersectionPoint {
        intersection_point: point(0.0, 0.0),
        intersecting_street_ids: vec![],
    }];
    let streets =
        vec![first, street(Some(2), &[(0.0, 0.0), (0.0, 1.0), (1.0, 1.0), (0.0, 0.0)])];
    let resolved = associate_ids(&streets);
    assert_eq!(resolved[0].intersection_points[0].intersecting_street_ids, vec![2]);
}

#[test]
fn find_inter_ids_compares_bit_for_bit() {
    let streets = vec![street(Some(2), &[(0.0, 0.0), (1.0, 1.0)])];
    assert_eq!(find_inter_ids(&point(-0.0, 0.0), &streets, 1), Vec::<u128>::new());
    let close = HashablePoint::new(1.0f64.to_bits() + 1, 1.0f64.to_bits());
    assert_eq!(find_inter_ids(&close, &streets, 1), Vec::<u128>::new());
    assert_eq!(find_inter_ids(&point(0.0, 0.0), &streets, 1), vec![2]);
}

#[test]
fn find_inter_ids_leaves_out_every_street_with_the_own_id() {
    let streets = vec![
        street(Some(1), &[(1.0, 1.0)]),
        street(Some(1), &[(1.0, 1.0)]),
        street(Some(2), &[(1.0, 1.0)]),
    ];
    assert_eq!(find_inter_ids(&point(1.0, 1.0), &streets, 1), vec![2]);
}

#[test]
fn resolving_replaces_the_ids_and_keeps_the_rest() {
    let mut first = street(Some(1), &[(0.0, 0.0), (1.0, 1.0)]);
    first.lights = vec![point(4.0, 4.0)];
    first.intersection_points = vec![
        IntersectionPoint { intersection_point: point(1.0, 1.0), intersecting_street_ids: vec![99] },
        IntersectionPoint { intersection_point: point(0.5, 0.5), intersecting_street_ids: vec![] },
    ];
    let streets = vec![first, street(Some(2), &[(1.0, 1.0), (2.0, 2.0)])];
    let resolved = resolve_intersections(&streets[0], &streets);
    assert_eq!(resolved.id, Some(1));
    assert_eq!(resolved.segments, streets[0].segments);
    assert_eq!(resolved.lights, vec![point(4.0, 4.0)]);
    assert_eq!(resolved.intersection_points.len(), 2);
    assert_eq!(resolved.intersection_points[0].intersection_point, point(1.0, 1.0));
    assert_eq!(resolved.intersection_points[0].intersecting_street_ids, vec![2]);
    assert_eq!(resolved.intersection_points[1].intersection_point, point(0.5, 0.5));
    assert!(resolved.intersection_points[1].intersecting_street_ids.is_empty());
    let all = associate_ids(&streets);
    assert_eq!(all.len(), 2);
    assert_eq!(all[0].intersection_points[0].intersecting_street_ids, vec![2]);
    assert!(all[1].intersection_points.is_empty());
    assert_eq!(all[1].id, Some(2));
}

#[test]
fn streets_without_intersections_need_no_ids() {
    let streets = vec![street(None, &[(0.0, 0.0)]), street(Some(2), &[(1.0, 1.0)])];
    let all = associate_ids(&streets);
    assert_eq!(all.len(), 2);
    assert_eq!(all[0].id, None);
    assert_eq!(all[0].segments, vec![point(0.0, 0.0)]);
}

#[test]
fn assign_ids_gives_every_street_without_an_id_a_fresh_one() {
    let mut streets = vec![
        street(None, &[(0.0, 0.0), (1.0, 1.0)]),
        street(Some(7), &[(1.0, 1.0), (2.0, 2.0)]),
        street(None, &[]),
    ];
    streets[0].lights = vec![point(3.0, 3.0)];
    assign_ids(&mut streets);
    assert_eq!(streets.len(), 3);
    let ids: Vec<u128> = streets.iter().map(|s| s.id.unwrap()).collect();
    assert_ne!(ids[0], ids[1]);
    assert_ne!(ids[1], ids[2]);
    assert_ne!(ids[0], ids[2]);
    assert_eq!(ids[1], 7);
    for id in [ids[0], ids[2]].iter() {
        assert_eq!((id >> 76) & 0xf, 4);
        assert_eq!((id >> 62) & 0x3, 2);
    }
    assert_eq!(streets[0].segments, vec![point(0.0, 0.0), point(1.0, 1.0)]);
    assert_eq!(streets[0].lights, vec![point(3.0, 3.0)]);
    assert_eq!(streets[1].segments, vec![point(1.0, 1.0), point(2.0, 2.0)]);
    assert!(streets[2].segments.is_empty());
}

#[test]
fn an_id_that_is_there_is_never_replaced() {
    let mut streets = vec![
        street(Some(1), &[(0.0, 0.0)]),
        street(Some(u128::MAX), &[(1.0, 1.0)]),
        street(Some(0), &[]),
    ];
    assign_ids(&mut streets);
    assert_eq!(streets[0].id, Some(1));
    assert_eq!(streets[1].id, Some(u128::MAX));
    assert_eq!(streets[2].id, Some(0));
    assign_ids(&mut streets);
    assert_eq!(streets[0].id, Some(1));
    let mut fresh = vec![street(None, &[(0.0, 0.0)])];
    assign_ids(&mut fresh);
    let first = fresh[0].id;
    assert!(first.is_some());
    assign_ids(&mut fresh);
    assert_eq!(fresh[0].id, first);
}

#[test]
fn given_ids_go_to_the_streets_without_one() {
    let mut streets = vec![
        street(None, &[(0.0, 0.0), (1.0, 1.0)]),
        street(Some(7), &[(1.0, 1.0), (2.0, 2.0)]),
    ];
    streets[1].lights = vec![point(3.0, 3.0)];
    streets[1].intersection_points = vec![IntersectionPoint {
        intersection_point: point(1.0, 1.0),
        intersecting_street_ids: vec![5],
    }];
    assign_given_ids(&mut streets, &vec![40, 41]);
    assert_eq!(streets.len(), 2);
    assert_eq!(streets[0].id, Some(40));
    assert_eq!(streets[1].id, Some(7));
    assert_eq!(streets[0].segments, vec![point(0.0, 0.0), point(1.0, 1.0)]);
    assert_eq!(streets[1].segments, vec![point(1.0, 1.0), point(2.0, 2.0)]);
    assert_eq!(streets[1].lights, vec![point(3.0, 3.0)]);
    assert_eq!(streets[1].intersection_points.len(), 1);
    assert_eq!(streets[1].intersection_points[0].intersecting_street_ids, vec![5]);
    let mut none: Vec<Walkable> = Vec::new();
    assign_given_ids(&mut none, &Vec::new());
    assert!(none.is_empty());
}
