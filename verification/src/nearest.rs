//! Association of point features (lights, buildings) with a street.
//!
//! For every sample point of the street the caller supplies the features
//! nearest to it, nearest first, each with its squared distance. Of these the
//! first `k` are considered; a feature is accepted when it is near enough and
//! has not been accepted for any sample point of the street before.

use crate::float_order::float_le;
use crate::types::{
    copy_intersections, copy_points, point_key, F64Wrapper, HashablePoint, Walkable, WalkableView,
    WalkableWithBuilding, WalkableWithBuildingView,
};
use std::collections::HashSet;
use vstd::prelude::*;
use vstd::std_specs::hash::*;

verus! {

broadcast use vstd::std_specs::hash::group_hash_axioms;

/// The number of nearest features considered for a sample point by default.
pub const DEFAULT_NEIGHBOR_COUNT: u32 = 5;

/// The bit pattern of the distance threshold, 0.000000012949080002809418.
pub const DIST_THRESHOLD_BITS: u64 = 0x3e4b_ced4_ff00_e862;

/// The bit pattern of twice the distance threshold, the largest squared
/// distance at which a feature is still near. Doubling adds one to the
/// exponent field of the double.
pub const DOUBLED_DIST_THRESHOLD_BITS: u64 = DIST_THRESHOLD_BITS + 0x0010_0000_0000_0000;

/// A feature found near a sample point, with its squared distance from it.
#[derive(Clone, Copy, Debug, PartialEq, Eq, Structural)]
pub struct Neighbor {
    pub point: HashablePoint,
    pub distance_2: F64Wrapper,
}

/// Whether a squared distance is within the threshold.
pub open spec fn is_near(distance_2: F64Wrapper) -> bool {
    float_le(distance_2.0, DOUBLED_DIST_THRESHOLD_BITS)
}

/// Whether the `j`-th feature found for sample point `i` is among the first
/// `k` found for that point and near enough.
pub open spec fn eligible(found: Seq<Vec<Neighbor>>, k: nat, i: int, j: int) -> bool {
    &&& 0 <= i < found.len()
    &&& 0 <= j < found[i]@.len()
    &&& j < k
    &&& is_near(found[i]@[j].distance_2)
}

/// Whether place `(i2, j2)` comes before place `(i, j)`: an earlier sample
/// point, or the same sample point and a nearer feature.
pub open spec fn earlier(i2: int, j2: int, i: int, j: int) -> bool {
    i2 < i || (i2 == i && j2 < j)
}

/// Whether `point` is eligible at some place before `(i, j)`.
pub open spec fn sighted_before(
    found: Seq<Vec<Neighbor>>,
    k: nat,
    i: int,
    j: int,
    point: HashablePoint,
) -> bool {
    exists|i2: int, j2: int|
        #[trigger] eligible(found, k, i2, j2) && earlier(i2, j2, i, j) && found[i2]@[j2].point
            == point
}

/// Whether the feature at place `(i, j)` is accepted: it is eligible there and
/// at no place before.
pub open spec fn first_sighting(found: Seq<Vec<Neighbor>>, k: nat, i: int, j: int) -> bool {
    eligible(found, k, i, j) && !sighted_before(found, k, i, j, found[i]@[j].point)
}

/// The features accepted for sample point `i` among the first `n` found for
/// it, nearest first.
pub open spec fn accepted(found: Seq<Vec<Neighbor>>, k: nat, i: int, n: int) -> Seq<HashablePoint>
    decreases n,
{
    if n <= 0 {
        Seq::empty()
    } else {
        let before = accepted(found, k, i, n - 1);
        if first_sighting(found, k, i, n - 1) {
            before.push(found[i]@[n - 1].point)
        } else {
            before
        }
    }
}

/// How many of the features found for sample point `i` are considered: `k`, or
/// all of them when there are fewer.
pub open spec fn considered(found: Seq<Vec<Neighbor>>, k: nat, i: int) -> int {
    if found[i]@.len() < k {
        found[i]@.len() as int
    } else {
        k as int
    }
}

/// Whether a squared distance is within the threshold. A distance that is not
/// a number is not.
pub fn within_distance_threshold(distance_2: &F64Wrapper) -> (near: bool)
    ensures
        near == is_near(*distance_2),
{
    distance_2.at_most(&F64Wrapper(DOUBLED_DIST_THRESHOLD_BITS))
}

/// The features associated with a street, one list per sample point.
///
/// `found[i]` holds the features nearest to the street's `i`-th sample point,
/// nearest first. The sample points of all segments of the street are taken in
/// order, so that a feature is accepted at most once for the whole street.
pub fn get_k_nearest_neighbors(k: u32, found: &Vec<Vec<Neighbor>>) -> (neighbors: Vec<
    Vec<HashablePoint>,
>)
    ensures
        neighbors@.len() == found@.len(),
        forall|i: int|
            0 <= i < found@.len() ==> (#[trigger] neighbors@[i])@ == accepted(
                found@,
                k as nat,
                i,
                considered(found@, k as nat, i),
            ),
{
    let mut neighbors: Vec<Vec<HashablePoint>> = Vec::new();
    let mut seen_lights: HashSet<u128> = HashSet::new();
    let mut i: usize = 0;
    while i < found.len()
        invariant
            i <= found.len(),
            neighbors@.len() == i,
            forall|h: int|
                0 <= h < i ==> (#[trigger] neighbors@[h])@ == accepted(
                    found@,
                    k as nat,
                    h,
                    considered(found@, k as nat, h),
                ),
            forall|p: HashablePoint|
                seen_lights@.contains(#[trigger] point_key(p)) <==> sighted_before(
                    found@,
                    k as nat,
                    i as int,
                    0,
                    p,
                ),
        decreases found.len() - i,
    {
        let point_nearest_neighbors = &found[i];
        let limit: usize = if point_nearest_neighbors.len() < k as usize {
            point_nearest_neighbors.len()
        } else {
            k as usize
        };
        let mut curr_neighbors: Vec<HashablePoint> = Vec::new();
        let mut j: usize = 0;
        while j < limit
            invariant
                j <= limit,
                i < found.len(),
                limit == considered(found@, k as nat, i as int),
                *point_nearest_neighbors == found@[i as int],
                curr_neighbors@ == accepted(found@, k as nat, i as int, j as int),
                forall|p: HashablePoint|
                    seen_lights@.contains(#[trigger] point_key(p)) <==> sighted_before(
                        found@,
                        k as nat,
                        i as int,
                        j as int,
                        p,
                    ),
            decreases limit - j,
        {
            let curr_point = point_nearest_neighbors[j].point;
            let point_distance = point_nearest_neighbors[j].distance_2;
            let ghost seen_before = seen_lights@;
            let near = within_distance_threshold(&point_distance);
            assert(near == eligible(found@, k as nat, i as int, j as int));
            if near {
                if !seen_lights.contains(&curr_point.key()) {
                    curr_neighbors.push(curr_point);
                    seen_lights.insert(curr_point.key());
                }
            }
            proof {
                assert forall|p: HashablePoint|
                    seen_lights@.contains(#[trigger] point_key(p)) <==> sighted_before(
                        found@,
                        k as nat,
                        i as int,
                        j + 1,
                        p,
                    ) by {
                    lemma_sighting_step(found@, k as nat, i as int, j as int, p);
                }
            }
            j += 1;
        }
        proof {
            assert forall|p: HashablePoint|
                sighted_before(found@, k as nat, i as int, limit as int, p) <==> sighted_before(
                    found@,
                    k as nat,
                    i + 1,
                    0,
                    p,
                ) by {
                lemma_sighting_next_sample(found@, k as nat, i as int, limit as int, p);
            }
        }
        neighbors.push(curr_neighbors);
        i += 1;
    }
    neighbors
}

/// What was sighted before the place after `(i, j)` is what was sighted before
/// `(i, j)`, and the feature at `(i, j)` if it is eligible.
pub proof fn lemma_sighting_step(found: Seq<Vec<Neighbor>>, k: nat, i: int, j: int, p: HashablePoint)
    requires
        0 <= i < found.len(),
        0 <= j < found[i]@.len(),
    ensures
        sighted_before(found, k, i, j + 1, p) <==> sighted_before(found, k, i, j, p) || (eligible(
            found,
            k,
            i,
            j,
        ) && found[i]@[j].point == p),
{
    if sighted_before(found, k, i, j + 1, p) {
        let (i2, j2) = choose|i2: int, j2: int|
            #[trigger] eligible(found, k, i2, j2) && earlier(i2, j2, i, j + 1) && found[i2]@[j2].point
                == p;
        if !(i2 == i && j2 == j) {
            assert(eligible(found, k, i2, j2) && earlier(i2, j2, i, j));
        }
    }
    if sighted_before(found, k, i, j, p) {
        let (i2, j2) = choose|i2: int, j2: int|
            #[trigger] eligible(found, k, i2, j2) && earlier(i2, j2, i, j) && found[i2]@[j2].point
                == p;
        assert(eligible(found, k, i2, j2) && earlier(i2, j2, i, j + 1));
    }
    if eligible(found, k, i, j) && found[i]@[j].point == p {
        assert(eligible(found, k, i, j) && earlier(i, j, i, j + 1));
    }
}

/// Once all features considered for sample point `i` are passed, what was
/// sighted is what was sighted before the first place of the next sample
/// point.
pub proof fn lemma_sighting_next_sample(
    found: Seq<Vec<Neighbor>>,
    k: nat,
    i: int,
    n: int,
    p: HashablePoint,
)
    requires
        0 <= i < found.len(),
        n == considered(found, k, i),
    ensures
        sighted_before(found, k, i, n, p) <==> sighted_before(found, k, i + 1, 0, p),
{
    if sighted_before(found, k, i, n, p) {
        let (i2, j2) = choose|i2: int, j2: int|
            #[trigger] eligible(found, k, i2, j2) && earlier(i2, j2, i, n) && found[i2]@[j2].point
                == p;
        assert(eligible(found, k, i2, j2) && earlier(i2, j2, i + 1, 0));
    }
    if sighted_before(found, k, i + 1, 0, p) {
        let (i2, j2) = choose|i2: int, j2: int|
            #[trigger] eligible(found, k, i2, j2) && earlier(i2, j2, i + 1, 0) && found[i2]@[j2].point
                == p;
        assert(eligible(found, k, i2, j2) && earlier(i2, j2, i, n));
    }
}


/// The features associated with a street over its first `m` sample points:
/// what was accepted for each of them, sample point after sample point.
pub open spec fn associated(found: Seq<Vec<Neighbor>>, k: nat, m: int) -> Seq<HashablePoint>
    decreases m,
{
    if m <= 0 {
        Seq::empty()
    } else {
        associated(found, k, m - 1) + accepted(
            found,
            k,
            m - 1,
            considered(found, k, m - 1),
        )
    }
}

/// A feature accepted for sample point `i` among the first `n` was sighted
/// before place `(i, n)` and not before sample point `i`.
pub proof fn lemma_accepted_is_first_sighting(
    found: Seq<Vec<Neighbor>>,
    k: nat,
    i: int,
    n: int,
    p: HashablePoint,
)
    requires
        0 <= i < found.len(),
        0 <= n <= found[i]@.len(),
        accepted(found, k, i, n).contains(p),
    ensures
        sighted_before(found, k, i, n, p),
        !sighted_before(found, k, i, 0, p),
    decreases n,
{
    if n > 0 {
        let before = accepted(found, k, i, n - 1);
        lemma_sighting_step(found, k, i, n - 1, p);
        if before.contains(p) {
            lemma_accepted_is_first_sighting(found, k, i, n - 1, p);
        } else {
            assert(first_sighting(found, k, i, n - 1));
            let grown = before.push(found[i]@[n - 1].point);
            let at = choose|at: int| 0 <= at < grown.len() && grown[at] == p;
            if at < before.len() {
                assert(before[at] == p);
            }
            assert(found[i]@[n - 1].point == p);
            if sighted_before(found, k, i, 0, p) {
                let (i2, j2) = choose|i2: int, j2: int|
                    #[trigger] eligible(found, k, i2, j2) && earlier(i2, j2, i, 0)
                        && found[i2]@[j2].point == p;
                assert(eligible(found, k, i2, j2) && earlier(i2, j2, i, n - 1));
            }
        }
    }
}

/// A feature sighted at sample point `i` before place `(i, n)`, and not
/// before that sample point, is accepted for it among the first `n`.
pub proof fn lemma_first_sighting_is_accepted(
    found: Seq<Vec<Neighbor>>,
    k: nat,
    i: int,
    n: int,
    p: HashablePoint,
)
    requires
        0 <= i < found.len(),
        0 <= n <= found[i]@.len(),
        sighted_before(found, k, i, n, p),
        !sighted_before(found, k, i, 0, p),
    ensures
        accepted(found, k, i, n).contains(p),
    decreases n,
{
    if n > 0 {
        let before = accepted(found, k, i, n - 1);
        lemma_sighting_step(found, k, i, n - 1, p);
        if sighted_before(found, k, i, n - 1, p) {
            lemma_first_sighting_is_accepted(found, k, i, n - 1, p);
            let at = choose|at: int| 0 <= at < before.len() && before[at] == p;
            if first_sighting(found, k, i, n - 1) {
                assert(before.push(found[i]@[n - 1].point)[at] == p);
            }
        } else {
            assert(first_sighting(found, k, i, n - 1));
            assert(before.push(p)[before.len() as int] == p);
        }
    }
}

/// No feature is accepted twice for one sample point.
pub proof fn lemma_accepted_no_duplicates(found: Seq<Vec<Neighbor>>, k: nat, i: int, n: int)
    requires
        0 <= i < found.len(),
        0 <= n <= found[i]@.len(),
    ensures
        accepted(found, k, i, n).no_duplicates(),
    decreases n,
{
    if n > 0 {
        lemma_accepted_no_duplicates(found, k, i, n - 1);
        let before = accepted(found, k, i, n - 1);
        let p = found[i]@[n - 1].point;
        if first_sighting(found, k, i, n - 1) && before.contains(p) {
            lemma_accepted_is_first_sighting(found, k, i, n - 1, p);
        }
    }
}

/// The features associated over the first `m` sample points are those
/// sighted before sample point `m`.
pub proof fn lemma_associated_contains(found: Seq<Vec<Neighbor>>, k: nat, m: int, p: HashablePoint)
    requires
        0 <= m <= found.len(),
    ensures
        associated(found, k, m).contains(p) <==> sighted_before(found, k, m, 0, p),
    decreases m,
{
    if m > 0 {
        let n = considered(found, k, m - 1);
        let front = associated(found, k, m - 1);
        let last = accepted(found, k, m - 1, n);
        lemma_associated_contains(found, k, m - 1, p);
        lemma_sighting_next_sample(found, k, m - 1, n, p);
        if sighted_before(found, k, m - 1, 0, p) {
            let (i2, j2) = choose|i2: int, j2: int|
                #[trigger] eligible(found, k, i2, j2) && earlier(i2, j2, m - 1, 0)
                    && found[i2]@[j2].point == p;
            assert(eligible(found, k, i2, j2) && earlier(i2, j2, m, 0));
        }
        if last.contains(p) {
            lemma_accepted_is_first_sighting(found, k, m - 1, n, p);
        }
        if sighted_before(found, k, m, 0, p) && !sighted_before(found, k, m - 1, 0, p) {
            lemma_first_sighting_is_accepted(found, k, m - 1, n, p);
        }
        if front.contains(p) {
            let at = choose|at: int| 0 <= at < front.len() && front[at] == p;
            assert((front + last)[at] == p);
        }
        if last.contains(p) {
            let at = choose|at: int| 0 <= at < last.len() && last[at] == p;
            assert((front + last)[front.len() + at] == p);
        }
        if (front + last).contains(p) {
            let at = choose|at: int| 0 <= at < (front + last).len() && (front + last)[at] == p;
            if at < front.len() {
                assert(front[at] == p);
            } else {
                assert(last[at - front.len()] == p);
            }
        }
    } else {
        if sighted_before(found, k, 0, 0, p) {
            let (i2, j2) = choose|i2: int, j2: int|
                #[trigger] eligible(found, k, i2, j2) && earlier(i2, j2, 0, 0)
                    && found[i2]@[j2].point == p;
        }
    }
}

/// A feature is associated with a street at most once, however many sample
/// points it is near to.
pub proof fn lemma_associated_no_duplicates(found: Seq<Vec<Neighbor>>, k: nat, m: int)
    requires
        0 <= m <= found.len(),
    ensures
        associated(found, k, m).no_duplicates(),
    decreases m,
{
    if m > 0 {
        let n = considered(found, k, m - 1);
        let front = associated(found, k, m - 1);
        let last = accepted(found, k, m - 1, n);
        lemma_associated_no_duplicates(found, k, m - 1);
        lemma_accepted_no_duplicates(found, k, m - 1, n);
        assert forall|a: int, b: int| 0 <= a < front.len() && 0 <= b < last.len() implies front[a]
            != last[b] by {
            if front[a] == last[b] {
                assert(front.contains(last[b]));
                assert(last.contains(last[b]));
                lemma_associated_contains(found, k, m - 1, last[b]);
                lemma_accepted_is_first_sighting(found, k, m - 1, n, last[b]);
            }
        }
        vstd::seq_lib::lemma_no_dup_in_concat(front, last);
    }
}

/// A feature that is near enough and among the first `k` found for some
/// sample point is associated with the street, exactly once.
pub proof fn lemma_eligible_is_associated_once(found: Seq<Vec<Neighbor>>, k: nat, i: int, j: int)
    requires
        eligible(found, k, i, j),
    ensures
        associated(found, k, found.len() as int).no_duplicates(),
        associated(found, k, found.len() as int).contains(found[i]@[j].point),
{
    let p = found[i]@[j].point;
    lemma_associated_no_duplicates(found, k, found.len() as int);
    lemma_associated_contains(found, k, found.len() as int, p);
    assert(eligible(found, k, i, j) && earlier(i, j, found.len() as int, 0));
}

/// The lists of `groups`, one behind the other.
pub open spec fn concatenated(groups: Seq<Vec<HashablePoint>>) -> Seq<HashablePoint>
    decreases groups.len(),
{
    if groups.len() == 0 {
        Seq::empty()
    } else {
        concatenated(groups.drop_last()) + groups.last()@
    }
}

/// One list of all the points of `groups`, group after group.
pub fn flatten_points(groups: &Vec<Vec<HashablePoint>>) -> (points: Vec<HashablePoint>)
    ensures
        points@ == concatenated(groups@),
{
    let mut points: Vec<HashablePoint> = Vec::new();
    let mut i: usize = 0;
    assert(groups@.take(0) =~= Seq::<Vec<HashablePoint>>::empty());
    while i < groups.len()
        invariant
            i <= groups.len(),
            points@ == concatenated(groups@.take(i as int)),
        decreases groups.len() - i,
    {
        let group = &groups[i];
        let ghost front = points@;
        let mut j: usize = 0;
        while j < group.len()
            invariant
                j <= group.len(),
                points@ == front + group@.take(j as int),
            decreases group.len() - j,
        {
            points.push(group[j]);
            assert(group@.take(j + 1) =~= group@.take(j as int).push(group@[j as int]));
            j += 1;
        }
        assert(group@.take(group.len() as int) =~= group@);
        assert(groups@.take(i + 1).drop_last() =~= groups@.take(i as int));
        i += 1;
    }
    assert(groups@.take(groups.len() as int) =~= groups@);
    points
}

/// What [`get_k_nearest_neighbors`] returns, laid end to end, is what is
/// associated with the street.
pub proof fn lemma_concatenated_is_associated(
    found: Seq<Vec<Neighbor>>,
    k: nat,
    neighbors: Seq<Vec<HashablePoint>>,
    m: int,
)
    requires
        0 <= m <= found.len(),
        neighbors.len() == found.len(),
        forall|i: int|
            0 <= i < found.len() ==> (#[trigger] neighbors[i])@ == accepted(
                found,
                k,
                i,
                considered(found, k, i),
            ),
    ensures
        concatenated(neighbors.take(m)) == associated(found, k, m),
    decreases m,
{
    if m > 0 {
        lemma_concatenated_is_associated(found, k, neighbors, m - 1);
        assert(neighbors.take(m).drop_last() =~= neighbors.take(m - 1));
        assert(neighbors.take(m).last() == neighbors[m - 1]);
    } else {
        assert(neighbors.take(0) =~= Seq::<Vec<HashablePoint>>::empty());
    }
}

/// The street with the lights that are associated with it: of the lights
/// found near its sample points, those that [`get_k_nearest_neighbors`]
/// accepts. Whatever lights the street had before are replaced.
pub fn associate_lights(sidewalk: &Walkable, k: u32, found: &Vec<Vec<Neighbor>>) -> (lit: Walkable)
    ensures
        lit@ == (WalkableView {
            lights: associated(found@, k as nat, found@.len() as int),
            ..sidewalk@
        }),
{
    let nearest_lights = get_k_nearest_neighbors(k, found);
    let light_points = flatten_points(&nearest_lights);
    proof {
        lemma_concatenated_is_associated(found@, k as nat, nearest_lights@, found@.len() as int);
        assert(nearest_lights@.take(found@.len() as int) =~= nearest_lights@);
    }
    Walkable {
        id: sidewalk.id,
        segments: copy_points(&sidewalk.segments),
        lights: light_points,
        intersection_points: copy_intersections(&sidewalk.intersection_points),
    }
}

/// The street with the buildings that are associated with it: of the
/// buildings found near its sample points, those that
/// [`get_k_nearest_neighbors`] accepts.
pub fn associate_buildings(sidewalk: &Walkable, k: u32, found: &Vec<Vec<Neighbor>>) -> (built:
    WalkableWithBuilding)
    ensures
        built@ == (WalkableWithBuildingView {
            street: sidewalk@,
            buildings: associated(found@, k as nat, found@.len() as int),
        }),
{
    let nearest_buildings = get_k_nearest_neighbors(k, found);
    let associated_buildings = flatten_points(&nearest_buildings);
    proof {
        lemma_concatenated_is_associated(found@, k as nat, nearest_buildings@, found@.len() as int);
        assert(nearest_buildings@.take(found@.len() as int) =~= nearest_buildings@);
    }
    WalkableWithBuilding {
        id: sidewalk.id,
        segments: copy_points(&sidewalk.segments),
        lights: copy_points(&sidewalk.lights),
        intersection_points: copy_intersections(&sidewalk.intersection_points),
        buildings: associated_buildings,
    }
}

} // verus!
