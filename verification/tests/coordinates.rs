use pathfinding_dev::float_order::{INFINITY_BITS, SIGN_BIT};
use pathfinding_dev::types::{
    copy_ids, copy_intersections, copy_points, is_point_equivalent, is_points_equal, F64Wrapper,
    HashablePoint, IntersectionPoint,
};

fn point(x: f64, y: f64) -> HashablePoint {
    HashablePoint::new(x.to_bits(), y.to_bits())
}

#[test]
fn a_coordinate_is_the_same_point_as_itself() {
    let samples = [
        point(-71.0521206843562, 42.36368463654058),
        point(0.0, 0.0),
        point(-0.0, 0.0),
        point(f64::NAN, 1.0),
        point(f64::INFINITY, f64::NEG_INFINITY),
    ];
    for c in samples.iter() {
        assert!(is_points_equal(c, c));
        assert!(is_point_equivalent(c, c));
        assert_eq!(*c, *c);
    }
}

#[test]
fn close_coordinates_are_different_points() {
    let base = point(-71.0521206843562, 42.36368463654058);
    let next_x = HashablePoint::new((-71.0521206843562f64).to_bits() + 1, 42.36368463654058f64.to_bits());
    let next_y = HashablePoint::new((-71.0521206843562f64).to_bits(), 42.36368463654058f64.to_bits() + 1);
    assert!(!is_points_equal(&base, &next_x));
    assert!(!is_points_equal(&base, &next_y));
    assert!(!is_point_equivalent(&base, &next_x));
    assert_ne!(base, next_y);
}

#[test]
fn the_two_zeros_are_different_points() {
    assert!(!is_points_equal(&point(0.0, 1.0), &point(-0.0, 1.0)));
    assert!(!is_points_equal(&point(1.0, 0.0), &point(1.0, -0.0)));
}

#[test]
fn swapped_axes_are_a_different_point() {
    assert!(!is_points_equal(&point(1.0, 2.0), &point(2.0, 1.0)));
}

#[test]
fn key_holds_x_in_the_high_half() {
    let p = HashablePoint::new(0x0123_4567_89ab_cdef, 0xfedc_ba98_7654_3210);
    assert_eq!(p.key(), 0x0123_4567_89ab_cdef_fedc_ba98_7654_3210u128);
    assert_eq!(HashablePoint::new(0, 1).key(), 1);
    assert_eq!(HashablePoint::new(1, 0).key(), 1u128 << 64);
    assert_eq!(HashablePoint::new(u64::MAX, u64::MAX).key(), u128::MAX);
}

#[test]
fn new_keeps_the_bit_patterns() {
    let p = HashablePoint::new(7, 9);
    assert_eq!(p.x, F64Wrapper(7));
    assert_eq!(p.y, F64Wrapper(9));
}

#[test]
fn copies_hold_what_was_copied() {
    let points = vec![point(1.0, 2.0), point(3.0, 4.0)];
    assert_eq!(copy_points(&points), points);
    assert_eq!(copy_points(&Vec::new()), Vec::new());
    let ids = vec![3u128, 1, 2];
    assert_eq!(copy_ids(&ids), ids);
    let records = vec![
        IntersectionPoint { intersection_point: point(1.0, 2.0), intersecting_street_ids: vec![5, 6] },
        IntersectionPoint { intersection_point: point(3.0, 4.0), intersecting_street_ids: vec![] },
    ];
    let copy = copy_intersections(&records);
    assert_eq!(copy.len(), 2);
    assert_eq!(copy[0].intersection_point, point(1.0, 2.0));
    assert_eq!(copy[0].intersecting_street_ids, vec![5, 6]);
    assert_eq!(copy[1].intersection_point, point(3.0, 4.0));
    assert!(copy[1].intersecting_street_ids.is_empty());
}

fn values() -> Vec<f64> {
    vec![
        0.0,
        -0.0,
        1.0,
        -1.0,
        15.0,
        14.999999999999998,
        15.000000000000002,
        2.5898160005618835e-08,
        5e-324,
        -5e-324,
        f64::MAX,
        f64::MIN,
        f64::MIN_POSITIVE,
        f64::INFINITY,
        f64::NEG_INFINITY,
        f64::NAN,
        -f64::NAN,
        f64::from_bits(0x7ff0_0000_0000_0001),
        f64::from_bits(0xffff_ffff_ffff_ffff),
    ]
}

#[test]
fn less_than_is_the_order_of_doubles() {
    for a in values() {
        for b in values() {
            let got = F64Wrapper(a.to_bits()).less_than(&F64Wrapper(b.to_bits()));
            assert_eq!(got, a < b, "{:?} < {:?}", a, b);
        }
    }
}

#[test]
fn at_most_is_the_order_of_doubles() {
    for a in values() {
        for b in values() {
            let got = F64Wrapper(a.to_bits()).at_most(&F64Wrapper(b.to_bits()));
            assert_eq!(got, a <= b, "{:?} <= {:?}", a, b);
        }
    }
}

#[test]
fn is_nan_tells_the_nans() {
    for a in values() {
        assert_eq!(F64Wrapper(a.to_bits()).is_nan(), a.is_nan(), "{:?}", a);
    }
}

#[test]
fn order_constants_are_the_bit_patterns() {
    assert_eq!(INFINITY_BITS, f64::INFINITY.to_bits());
    assert_eq!(SIGN_BIT, (-0.0f64).to_bits());
}
