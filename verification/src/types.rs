//! The street entities and exact coordinate identity.

use vstd::prelude::*;

verus! {

/// An IEEE-754 double, held by its bit pattern.
///
/// Two wrappers are equal exactly when their bit patterns are equal: `0.0` and
/// `-0.0` differ, and a NaN equals itself.
#[derive(Clone, Copy, Debug, PartialEq, Eq, Hash, Structural)]
pub struct F64Wrapper(pub u64);

/// A longitude (`x`) / latitude (`y`) pair that can be hashed and compared
/// exactly.
#[derive(Clone, Copy, Debug, PartialEq, Eq, Hash, Structural)]
pub struct HashablePoint {
    pub x: F64Wrapper,
    pub y: F64Wrapper,
}

/// A coordinate where streets meet, with the identifiers of the other streets
/// that pass exactly through it.
#[derive(Clone, Debug)]
pub struct IntersectionPoint {
    pub intersection_point: HashablePoint,
    pub intersecting_street_ids: Vec<u128>,
}

/// One street or sidewalk: its identifier (a UUID as a 128-bit number), its
/// polyline, and what has been associated with it.
#[derive(Clone, Debug)]
pub struct Walkable {
    pub id: Option<u128>,
    pub segments: Vec<HashablePoint>,
    pub lights: Vec<HashablePoint>,
    pub intersection_points: Vec<IntersectionPoint>,
}

/// A street together with the buildings associated with it.
#[derive(Clone, Debug)]
pub struct WalkableWithBuilding {
    pub id: Option<u128>,
    pub segments: Vec<HashablePoint>,
    pub lights: Vec<HashablePoint>,
    pub intersection_points: Vec<IntersectionPoint>,
    pub buildings: Vec<HashablePoint>,
}

/// Measures of a street, in whole units.
#[derive(Clone, Debug)]
#[allow(dead_code)]
pub struct Properties {
    left_sidewalk_width: u32,
    right_sidewalk_width: u32,
    street_length: u32,
}

/// What an [`IntersectionPoint`] holds.
pub struct IntersectionPointView {
    pub intersection_point: HashablePoint,
    pub intersecting_street_ids: Seq<u128>,
}

/// What a [`Walkable`] holds.
pub struct WalkableView {
    pub id: Option<u128>,
    pub segments: Seq<HashablePoint>,
    pub lights: Seq<HashablePoint>,
    pub intersection_points: Seq<IntersectionPointView>,
}

/// What a [`WalkableWithBuilding`] holds.
pub struct WalkableWithBuildingView {
    pub street: WalkableView,
    pub buildings: Seq<HashablePoint>,
}

impl View for IntersectionPoint {
    type V = IntersectionPointView;

    open spec fn view(&self) -> IntersectionPointView {
        IntersectionPointView {
            intersection_point: self.intersection_point,
            intersecting_street_ids: self.intersecting_street_ids@,
        }
    }
}

impl View for Walkable {
    type V = WalkableView;

    open spec fn view(&self) -> WalkableView {
        WalkableView {
            id: self.id,
            segments: self.segments@,
            lights: self.lights@,
            intersection_points: self.intersection_points@.map_values(|p: IntersectionPoint| p@),
        }
    }
}

impl View for WalkableWithBuilding {
    type V = WalkableWithBuildingView;

    open spec fn view(&self) -> WalkableWithBuildingView {
        WalkableWithBuildingView {
            street: WalkableView {
                id: self.id,
                segments: self.segments@,
                lights: self.lights@,
                intersection_points: self.intersection_points@.map_values(
                    |p: IntersectionPoint| p@,
                ),
            },
            buildings: self.buildings@,
        }
    }
}

/// Whether two coordinates are the same point: both axes agree bit for bit.
pub open spec fn same_point(a: HashablePoint, b: HashablePoint) -> bool {
    a.x.0 == b.x.0 && a.y.0 == b.y.0
}

/// The 128-bit number made of a coordinate's two bit patterns, `x` in the high
/// half. Different coordinates give different numbers.
pub open spec fn point_key(p: HashablePoint) -> u128 {
    (p.x.0 as int * 0x1_0000_0000_0000_0000 + p.y.0 as int) as u128
}

/// Coordinate identity: bit equality on both axes, with no tolerance.
pub fn is_points_equal(point1: &HashablePoint, point2: &HashablePoint) -> (same: bool)
    ensures
        same == same_point(*point1, *point2),
        same == (*point1 == *point2),
{
    point1.x.0 == point2.x.0 && point1.y.0 == point2.y.0
}

/// Coordinate identity as the graph builder asks for it; the same relation as
/// [`is_points_equal`].
pub fn is_point_equivalent(point1: &HashablePoint, point2: &HashablePoint) -> (same: bool)
    ensures
        same == same_point(*point1, *point2),
        same == (*point1 == *point2),
{
    is_points_equal(point1, point2)
}

/// Coordinate identity is reflexive and bit-exact: every coordinate is the same
/// point as itself, and two coordinates that differ in the bit pattern of
/// either axis are not the same point.
pub proof fn lemma_identity_is_bit_exact(c1: HashablePoint, c2: HashablePoint)
    ensures
        same_point(c1, c1),
        c1.x.0 != c2.x.0 || c1.y.0 != c2.y.0 ==> !same_point(c1, c2),
        same_point(c1, c2) <==> c1 == c2,
{
}

/// Different coordinates have different keys.
pub proof fn lemma_point_key_injective(a: HashablePoint, b: HashablePoint)
    ensures
        point_key(a) == point_key(b) <==> a == b,
{
}

impl HashablePoint {
    /// The coordinate with the given bit patterns.
    pub fn new(x_bits: u64, y_bits: u64) -> (p: HashablePoint)
        ensures
            p.x.0 == x_bits,
            p.y.0 == y_bits,
    {
        HashablePoint { x: F64Wrapper(x_bits), y: F64Wrapper(y_bits) }
    }

    /// The key under which this coordinate is hashed.
    pub fn key(&self) -> (k: u128)
        ensures
            k == point_key(*self),
    {
        let high: u128 = self.x.0 as u128;
        let low: u128 = self.y.0 as u128;
        high * 0x1_0000_0000_0000_0000u128 + low
    }
}

/// A copy of a list of coordinates.
pub fn copy_points(points: &Vec<HashablePoint>) -> (copy: Vec<HashablePoint>)
    ensures
        copy@ == points@,
{
    let mut copy: Vec<HashablePoint> = Vec::new();
    let mut i: usize = 0;
    while i < points.len()
        invariant
            i <= points.len(),
            copy@ == points@.subrange(0, i as int),
        decreases points.len() - i,
    {
        copy.push(points[i]);
        assert(points@.subrange(0, i + 1) =~= points@.subrange(0, i as int).push(points@[i as int]));
        i += 1;
    }
    assert(points@.subrange(0, points.len() as int) =~= points@);
    copy
}

/// A copy of a list of street identifiers.
pub fn copy_ids(ids: &Vec<u128>) -> (copy: Vec<u128>)
    ensures
        copy@ == ids@,
{
    let mut copy: Vec<u128> = Vec::new();
    let mut i: usize = 0;
    while i < ids.len()
        invariant
            i <= ids.len(),
            copy@ == ids@.subrange(0, i as int),
        decreases ids.len() - i,
    {
        copy.push(ids[i]);
        assert(ids@.subrange(0, i + 1) =~= ids@.subrange(0, i as int).push(ids@[i as int]));
        i += 1;
    }
    assert(ids@.subrange(0, ids.len() as int) =~= ids@);
    copy
}

/// A copy of a list of intersection records.
pub fn copy_intersections(points: &Vec<IntersectionPoint>) -> (copy: Vec<IntersectionPoint>)
    ensures
        copy@.map_values(|p: IntersectionPoint| p@) == points@.map_values(|p: IntersectionPoint| p@),
{
    let mut copy: Vec<IntersectionPoint> = Vec::new();
    let mut i: usize = 0;
    while i < points.len()
        invariant
            i <= points.len(),
            copy@.len() == i,
            forall|j: int| 0 <= j < i ==> copy@[j]@ == #[trigger] points@[j]@,
        decreases points.len() - i,
    {
        let ids = copy_ids(&points[i].intersecting_street_ids);
        copy.push(
            IntersectionPoint {
                intersection_point: points[i].intersection_point,
                intersecting_street_ids: ids,
            },
        );
        i += 1;
    }
    assert(copy@.map_values(|p: IntersectionPoint| p@) =~= points@.map_values(
        |p: IntersectionPoint| p@,
    ));
    copy
}

} // verus!
