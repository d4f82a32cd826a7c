//! Street identifiers and the coordinates where streets meet.

use crate::sequences::{
    first_occurrences, lemma_absorb_contains, lemma_absorb_no_duplicates, lemma_absorb_push,
};
use crate::types::{
    copy_points, is_points_equal, point_key, HashablePoint, IntersectionPoint,
    IntersectionPointView, Walkable, WalkableView,
};
use std::collections::HashSet;
use vstd::prelude::*;
use vstd::std_specs::hash::*;

verus! {

broadcast use vstd::std_specs::hash::group_hash_axioms;

/// Whether the number is a random (version 4) UUID of the standard variant:
/// its version field holds 4 and its variant field the bits 1 and 0.
pub open spec fn is_random_id(id: u128) -> bool {
    (id / 0x1000_0000_0000_0000_0000) % 16 == 4 && (id / 0x4000_0000_0000_0000) % 4 == 2
}

/// `uuid::Uuid::new_v4`, as the 128-bit number that `Uuid::as_u128` gives: a
/// fresh random identifier. Of its value only the version and variant fields
/// are known, which `new_v4` sets in whatever the random source gave. The
/// call fails only where the system has no random bytes to give.
#[verifier::external_body]
fn new_random_id() -> (id: u128)
    ensures
        is_random_id(id),
{
    uuid::Uuid::new_v4().as_u128()
}

/// The identifier of a street after identifiers were assigned: the one it
/// had, or `fresh` if it had none. An identifier is assigned once and never
/// replaced.
pub open spec fn assigned_id(had: Option<u128>, fresh: u128) -> Option<u128> {
    match had {
        Some(id) => Some(id),
        None => Some(fresh),
    }
}

/// Gives each street without an identifier the one that `ids` holds at the
/// street's place. A street that has an identifier keeps it; everything else
/// about the streets stays.
pub fn assign_given_ids(sidewalks: &mut Vec<Walkable>, ids: &Vec<u128>)
    requires
        ids@.len() == old(sidewalks)@.len(),
    ensures
        final(sidewalks)@.len() == old(sidewalks)@.len(),
        all_identified(final(sidewalks)@),
        forall|i: int|
            0 <= i < old(sidewalks)@.len() ==> (#[trigger] final(sidewalks)@[i])@ == (WalkableView {
                id: assigned_id(old(sidewalks)@[i].id, ids@[i]),
                ..old(sidewalks)@[i]@
            }),
{
    let mut i: usize = 0;
    while i < sidewalks.len()
        invariant
            i <= sidewalks.len(),
            sidewalks@.len() == old(sidewalks)@.len(),
            ids@.len() == sidewalks@.len(),
            forall|j: int|
                0 <= j < i ==> (#[trigger] sidewalks@[j])@ == (WalkableView {
                    id: assigned_id(old(sidewalks)@[j].id, ids@[j]),
                    ..old(sidewalks)@[j]@
                }),
            forall|j: int| i <= j < sidewalks@.len() ==> sidewalks@[j] == old(sidewalks)@[j],
        decreases sidewalks.len() - i,
    {
        if sidewalks[i].id.is_none() {
            sidewalks[i].id = Some(ids[i]);
        }
        i += 1;
    }
    assert forall|j: int| 0 <= j < sidewalks@.len() implies (#[trigger] sidewalks@[j]).id is Some by {
        assert(sidewalks@[j]@.id == assigned_id(old(sidewalks)@[j].id, ids@[j]));
    }
}

/// Gives every street without an identifier a fresh random one. A street
/// that has an identifier keeps it; everything else about the streets stays.
pub fn assign_ids(sidewalks: &mut Vec<Walkable>)
    ensures
        final(sidewalks)@.len() == old(sidewalks)@.len(),
        all_identified(final(sidewalks)@),
        forall|i: int|
            0 <= i < old(sidewalks)@.len() ==> {
                &&& old(sidewalks)@[i].id is Some ==> (#[trigger] final(sidewalks)@[i]).id == old(
                    sidewalks,
                )@[i].id
                &&& old(sidewalks)@[i].id is None ==> final(sidewalks)@[i].id is Some
                    && is_random_id(final(sidewalks)@[i].id->Some_0)
                &&& final(sidewalks)@[i]@ == (WalkableView {
                    id: final(sidewalks)@[i].id,
                    ..old(sidewalks)@[i]@
                })
            },
{
    let mut ids: Vec<u128> = Vec::new();
    let mut i: usize = 0;
    while i < sidewalks.len()
        invariant
            i <= sidewalks.len(),
            sidewalks@ == old(sidewalks)@,
            ids@.len() == i,
            forall|j: int|
                0 <= j < i ==> match (#[trigger] sidewalks@[j]).id {
                    Some(id) => ids@[j] == id,
                    None => is_random_id(ids@[j]),
                },
        decreases sidewalks.len() - i,
    {
        let id = match sidewalks[i].id {
            Some(id) => id,
            None => new_random_id(),
        };
        ids.push(id);
        i += 1;
    }
    assign_given_ids(sidewalks, &ids);
    assert forall|j: int| 0 <= j < old(sidewalks)@.len() implies {
        &&& old(sidewalks)@[j].id is Some ==> (#[trigger] sidewalks@[j]).id == old(sidewalks)@[j].id
        &&& old(sidewalks)@[j].id is None ==> sidewalks@[j].id is Some && is_random_id(
            sidewalks@[j].id->Some_0,
        )
        &&& sidewalks@[j]@ == (WalkableView { id: sidewalks@[j].id, ..old(sidewalks)@[j]@ })
    } by {
        assert(sidewalks@[j]@.id == assigned_id(old(sidewalks)@[j].id, ids@[j]));
    }
}

/// Whether two polylines are identical: the same coordinates in the same
/// order.
pub fn is_same_polyline(first: &Vec<HashablePoint>, second: &Vec<HashablePoint>) -> (same: bool)
    ensures
        same == (first@ == second@),
{
    if first.len() != second.len() {
        return false;
    }
    let mut i: usize = 0;
    while i < first.len()
        invariant
            i <= first.len(),
            first.len() == second.len(),
            forall|j: int| 0 <= j < i ==> first@[j] == second@[j],
        decreases first.len() - i,
    {
        if !is_points_equal(&first[i], &second[i]) {
            return false;
        }
        i += 1;
    }
    assert(first@ =~= second@);
    true
}

/// The crossings of a street with the first `n` candidates that are not the
/// street itself, candidate after candidate.
pub open spec fn foreign_crossings(
    sidewalk: Seq<HashablePoint>,
    candidates: Seq<Vec<HashablePoint>>,
    crossings: Seq<Vec<HashablePoint>>,
    n: int,
) -> Seq<HashablePoint>
    decreases n,
{
    if n <= 0 {
        Seq::empty()
    } else {
        let before = foreign_crossings(sidewalk, candidates, crossings, n - 1);
        if candidates[n - 1]@ == sidewalk {
            before
        } else {
            before + crossings[n - 1]@
        }
    }
}

/// The coordinates at which a street crosses other streets, each once, in the
/// order in which they were found.
///
/// `candidates` are the polylines that were tried, nearest first, and
/// `crossings[c]` holds the coordinates at which the segments of `sidewalk`
/// cross those of `candidates[c]`, in the order of the segment pairs. A
/// candidate identical to `sidewalk` is the street itself and is passed over.
pub fn get_nearest_intersection_points(
    sidewalk: &Vec<HashablePoint>,
    candidates: &Vec<Vec<HashablePoint>>,
    crossings: &Vec<Vec<HashablePoint>>,
) -> (intersections: Vec<HashablePoint>)
    requires
        candidates@.len() == crossings@.len(),
    ensures
        intersections@ == first_occurrences(
            foreign_crossings(sidewalk@, candidates@, crossings@, candidates@.len() as int),
        ),
{
    let mut seen_hash: HashSet<u128> = HashSet::new();
    let mut intersections: Vec<HashablePoint> = Vec::new();
    let mut c: usize = 0;
    while c < candidates.len()
        invariant
            c <= candidates.len(),
            candidates@.len() == crossings@.len(),
            intersections@ == first_occurrences(
                foreign_crossings(sidewalk@, candidates@, crossings@, c as int),
            ),
            forall|p: HashablePoint|
                seen_hash@.contains(#[trigger] point_key(p)) <==> intersections@.contains(p),
        decreases candidates.len() - c,
    {
        if !is_same_polyline(sidewalk, &candidates[c]) {
            let ghost before = foreign_crossings(sidewalk@, candidates@, crossings@, c as int);
            let hits = &crossings[c];
            let mut h: usize = 0;
            assert(before + hits@.take(0) =~= before);
            while h < hits.len()
                invariant
                    h <= hits.len(),
                    intersections@ == first_occurrences(before + hits@.take(h as int)),
                    forall|p: HashablePoint|
                        seen_hash@.contains(#[trigger] point_key(p)) <==> intersections@.contains(
                            p,
                        ),
                decreases hits.len() - h,
            {
                let intersection = hits[h];
                let ghost kept = intersections@;
                proof {
                    lemma_absorb_push(
                        Seq::<HashablePoint>::empty(),
                        before + hits@.take(h as int),
                        intersection,
                    );
                    assert(before + hits@.take(h + 1) =~= (before + hits@.take(h as int)).push(
                        intersection,
                    ));
                }
                if !seen_hash.contains(&intersection.key()) {
                    intersections.push(intersection);
                    seen_hash.insert(intersection.key());
                    proof {
                        assert forall|p: HashablePoint|
                            seen_hash@.contains(#[trigger] point_key(p))
                                <==> intersections@.contains(p) by {
                            if kept.contains(p) {
                                let at = choose|at: int| 0 <= at < kept.len() && kept[at] == p;
                                assert(intersections@[at] == p);
                            }
                            if p == intersection {
                                assert(intersections@[kept.len() as int] == p);
                            }
                        }
                    }
                }
                h += 1;
            }
            assert(hits@.take(hits.len() as int) =~= hits@);
        }
        c += 1;
    }
    intersections
}

/// Records, for every street, the coordinates at which it crosses other
/// streets: `found[i]` are those of street `i`. Which streets cross there is
/// not known yet, so each record names none.
pub fn get_intersection_points(sidewalks: &mut Vec<Walkable>, found: &Vec<Vec<HashablePoint>>)
    requires
        found@.len() == old(sidewalks)@.len(),
    ensures
        final(sidewalks)@.len() == old(sidewalks)@.len(),
        forall|i: int|
            0 <= i < old(sidewalks)@.len() ==> (#[trigger] final(sidewalks)@[i])@ == (WalkableView {
                intersection_points: unresolved(found@[i]@),
                ..old(sidewalks)@[i]@
            }),
{
    let mut i: usize = 0;
    while i < sidewalks.len()
        invariant
            i <= sidewalks.len(),
            sidewalks@.len() == old(sidewalks)@.len(),
            found@.len() == sidewalks@.len(),
            forall|j: int|
                0 <= j < i ==> (#[trigger] sidewalks@[j])@ == (WalkableView {
                    intersection_points: unresolved(found@[j]@),
                    ..old(sidewalks)@[j]@
                }),
            forall|j: int| i <= j < sidewalks@.len() ==> sidewalks@[j] == old(sidewalks)@[j],
        decreases sidewalks.len() - i,
    {
        let points = &found[i];
        let mut intersection_points: Vec<IntersectionPoint> = Vec::new();
        let mut h: usize = 0;
        while h < points.len()
            invariant
                h <= points.len(),
                intersection_points@.len() == h,
                forall|g: int|
                    0 <= g < h ==> (#[trigger] intersection_points@[g])@ == (IntersectionPointView {
                        intersection_point: points@[g],
                        intersecting_street_ids: Seq::empty(),
                    }),
            decreases points.len() - h,
        {
            intersection_points.push(
                IntersectionPoint {
                    intersection_point: points[h],
                    intersecting_street_ids: Vec::new(),
                },
            );
            h += 1;
        }
        assert(intersection_points@.map_values(|p: IntersectionPoint| p@) =~= unresolved(
            points@,
        ));
        sidewalks[i].intersection_points = intersection_points;
        i += 1;
    }
}

/// Intersection records for the given coordinates that name no street yet.
pub open spec fn unresolved(points: Seq<HashablePoint>) -> Seq<IntersectionPointView> {
    points.map_values(
        |p: HashablePoint|
            IntersectionPointView { intersection_point: p, intersecting_street_ids: Seq::empty() },
    )
}

/// The identifier of `street` alone, if the street has another identifier
/// than `own` and its polyline passes through `point`; else nothing. A street
/// that passes through the point more than once is still named once.
pub open spec fn id_on_street(street: Walkable, point: HashablePoint, own: u128) -> Seq<u128> {
    match street.id {
        Some(id) => if id != own && street.segments@.contains(point) {
            seq![id]
        } else {
            Seq::empty()
        },
        None => Seq::empty(),
    }
}

/// What each street in turn contributes for `point`: its identifier, if it is
/// another street than `own` and passes through the point.
pub open spec fn named_ids(streets: Seq<Walkable>, point: HashablePoint, own: u128) -> Seq<u128>
    decreases streets.len(),
{
    if streets.len() == 0 {
        Seq::empty()
    } else {
        named_ids(streets.drop_last(), point, own) + id_on_street(streets.last(), point, own)
    }
}

/// The set of identifiers of the streets that pass through `point`, leaving
/// out `own`: each identifier once, in the order of the first street that
/// carries it.
pub open spec fn passing_ids(streets: Seq<Walkable>, point: HashablePoint, own: u128) -> Seq<u128> {
    first_occurrences(named_ids(streets, point, own))
}

/// Whether every street has an identifier.
pub open spec fn all_identified(streets: Seq<Walkable>) -> bool {
    forall|i: int| 0 <= i < streets.len() ==> (#[trigger] streets[i]).id is Some
}

/// Whether the polyline of the street passes exactly through `point`.
pub fn passes_through(sidewalk: &Walkable, point: &HashablePoint) -> (passes: bool)
    ensures
        passes == sidewalk.segments@.contains(*point),
{
    let mut k: usize = 0;
    while k < sidewalk.segments.len()
        invariant
            k <= sidewalk.segments.len(),
            forall|h: int| 0 <= h < k ==> sidewalk.segments@[h] != *point,
        decreases sidewalk.segments.len() - k,
    {
        if is_points_equal(&sidewalk.segments[k], point) {
            return true;
        }
        k += 1;
    }
    false
}

/// The identifiers of the streets whose polylines pass exactly through
/// `inter_point`, leaving out the street `intersection_point_id` that the
/// intersection belongs to. Every street is scanned; the result is a set, so
/// an identifier is listed once however often a street passes through the
/// point.
pub fn find_inter_ids(
    inter_point: &HashablePoint,
    sidewalks: &Vec<Walkable>,
    intersection_point_id: u128,
) -> (ids: Vec<u128>)
    requires
        all_identified(sidewalks@),
    ensures
        ids@ == passing_ids(sidewalks@, *inter_point, intersection_point_id),
        ids@.no_duplicates(),
{
    let mut ids: Vec<u128> = Vec::new();
    let mut listed: HashSet<u128> = HashSet::new();
    let mut s: usize = 0;
    assert(sidewalks@.take(0) =~= Seq::<Walkable>::empty());
    while s < sidewalks.len()
        invariant
            s <= sidewalks.len(),
            all_identified(sidewalks@),
            ids@ == passing_ids(sidewalks@.take(s as int), *inter_point, intersection_point_id),
            forall|id: u128| listed@.contains(id) <==> ids@.contains(id),
        decreases sidewalks.len() - s,
    {
        let sidewalk = &sidewalks[s];
        let ghost named = named_ids(sidewalks@.take(s as int), *inter_point, intersection_point_id);
        let ghost kept = ids@;
        proof {
            assert(sidewalks@.take(s + 1).drop_last() =~= sidewalks@.take(s as int));
            assert(sidewalks@.take(s + 1).last() == *sidewalk);
            assert(named + Seq::<u128>::empty() =~= named);
        }
        match sidewalk.id {
            Some(id) => {
                if id != intersection_point_id && passes_through(sidewalk, inter_point) {
                    proof {
                        assert(named + seq![id] =~= named.push(id));
                        lemma_absorb_push(Seq::<u128>::empty(), named, id);
                    }
                    if !listed.contains(&id) {
                        ids.push(id);
                        listed.insert(id);
                        proof {
                            assert forall|other: u128|
                                listed@.contains(other) <==> ids@.contains(other) by {
                                if kept.contains(other) {
                                    let at = choose|at: int| 0 <= at < kept.len() && kept[at] == other;
                                    assert(ids@[at] == other);
                                }
                                if other == id {
                                    assert(ids@[kept.len() as int] == other);
                                }
                            }
                        }
                    }
                }
            },
            None => {},
        }
        s += 1;
    }
    proof {
        assert(sidewalks@.take(sidewalks.len() as int) =~= sidewalks@);
        lemma_absorb_no_duplicates(
            Seq::<u128>::empty(),
            named_ids(sidewalks@, *inter_point, intersection_point_id),
        );
    }
    ids
}

/// An intersection record with the streets that pass through its coordinate
/// in place of whatever it named before.
pub open spec fn resolved_point(streets: Seq<Walkable>, own: u128, record: IntersectionPointView) -> IntersectionPointView {
    IntersectionPointView {
        intersection_point: record.intersection_point,
        intersecting_street_ids: passing_ids(streets, record.intersection_point, own),
    }
}

/// A street whose intersection records name the other streets that pass
/// through their coordinates.
pub open spec fn resolved_street(streets: Seq<Walkable>, street: WalkableView) -> WalkableView {
    match street.id {
        Some(own) => WalkableView {
            intersection_points: street.intersection_points.map_values(
                |record: IntersectionPointView| resolved_point(streets, own, record),
            ),
            ..street
        },
        None => street,
    }
}

/// What resolving asks of a street among `streets`: if it has an intersection,
/// it and all of `streets` have identifiers.
pub open spec fn resolvable(streets: Seq<Walkable>, street: Walkable) -> bool {
    street.intersection_points@.len() > 0 ==> street.id is Some && all_identified(streets)
}

/// The street with every one of its intersections resolved against
/// `sidewalks`: each record keeps its coordinate and names the other streets
/// that pass exactly through it.
pub fn resolve_intersections(sidewalk: &Walkable, sidewalks: &Vec<Walkable>) -> (walkable: Walkable)
    requires
        resolvable(sidewalks@, *sidewalk),
    ensures
        walkable@ == resolved_street(sidewalks@, sidewalk@),
{
    let mut intersections: Vec<IntersectionPoint> = Vec::new();
    let mut j: usize = 0;
    while j < sidewalk.intersection_points.len()
        invariant
            j <= sidewalk.intersection_points.len(),
            resolvable(sidewalks@, *sidewalk),
            intersections@.len() == j,
            forall|g: int|
                0 <= g < j ==> (#[trigger] intersections@[g])@ == resolved_point(
                    sidewalks@,
                    sidewalk.id->Some_0,
                    sidewalk.intersection_points@[g]@,
                ),
        decreases sidewalk.intersection_points.len() - j,
    {
        let intersection_point = &sidewalk.intersection_points[j];
        match sidewalk.id {
            Some(own) => {
                let intersecting_ids = find_inter_ids(
                    &intersection_point.intersection_point,
                    sidewalks,
                    own,
                );
                intersections.push(
                    IntersectionPoint {
                        intersection_point: intersection_point.intersection_point,
                        intersecting_street_ids: intersecting_ids,
                    },
                );
            },
            None => {},
        }
        j += 1;
    }
    let walkable = Walkable {
        id: sidewalk.id,
        segments: copy_points(&sidewalk.segments),
        lights: copy_points(&sidewalk.lights),
        intersection_points: intersections,
    };
    assert(walkable@.intersection_points =~= resolved_street(
        sidewalks@,
        sidewalk@,
    ).intersection_points);
    walkable
}

/// All streets, each with its intersections resolved against all of them.
pub fn associate_ids(sidewalks: &Vec<Walkable>) -> (updated_sidewalks: Vec<Walkable>)
    requires
        forall|i: int| 0 <= i < sidewalks@.len() ==> resolvable(sidewalks@, #[trigger] sidewalks@[i]),
    ensures
        updated_sidewalks@.len() == sidewalks@.len(),
        forall|i: int|
            0 <= i < sidewalks@.len() ==> (#[trigger] updated_sidewalks@[i])@ == resolved_street(
                sidewalks@,
                sidewalks@[i]@,
            ),
{
    let mut updated_sidewalks: Vec<Walkable> = Vec::new();
    let mut i: usize = 0;
    while i < sidewalks.len()
        invariant
            i <= sidewalks.len(),
            forall|h: int|
                0 <= h < sidewalks@.len() ==> resolvable(sidewalks@, #[trigger] sidewalks@[h]),
            updated_sidewalks@.len() == i,
            forall|h: int|
                0 <= h < i ==> (#[trigger] updated_sidewalks@[h])@ == resolved_street(
                    sidewalks@,
                    sidewalks@[h]@,
                ),
        decreases sidewalks.len() - i,
    {
        let walkable = resolve_intersections(&sidewalks[i], sidewalks);
        updated_sidewalks.push(walkable);
        i += 1;
    }
    updated_sidewalks
}


/// An identifier is among what the streets contribute exactly when it is not
/// `own` and some street with that identifier has `point` on its polyline.
pub proof fn lemma_named_ids(streets: Seq<Walkable>, point: HashablePoint, own: u128, id: u128)
    ensures
        named_ids(streets, point, own).contains(id) <==> id != own && exists|i: int|
            0 <= i < streets.len() && (#[trigger] streets[i]).id == Some(id)
                && streets[i].segments@.contains(point),
    decreases streets.len(),
{
    if streets.len() > 0 {
        let front = streets.drop_last();
        let last = streets.last();
        lemma_named_ids(front, point, own, id);
        let a = named_ids(front, point, own);
        let b = id_on_street(last, point, own);
        if a.contains(id) {
            let at = choose|at: int| 0 <= at < a.len() && a[at] == id;
            assert((a + b)[at] == id);
            let i = choose|i: int|
                0 <= i < front.len() && (#[trigger] front[i]).id == Some(id)
                    && front[i].segments@.contains(point);
            assert(streets[i] == front[i]);
        }
        if b.contains(id) {
            let at = choose|at: int| 0 <= at < b.len() && b[at] == id;
            assert((a + b)[a.len() + at] == id);
            assert(streets[streets.len() - 1] == last);
        }
        if (a + b).contains(id) {
            let at = choose|at: int| 0 <= at < (a + b).len() && (a + b)[at] == id;
            if at < a.len() {
                assert(a[at] == id);
            } else {
                assert(b[at - a.len()] == id);
            }
        }
        if id != own && exists|i: int|
            0 <= i < streets.len() && (#[trigger] streets[i]).id == Some(id)
                && streets[i].segments@.contains(point) {
            let i = choose|i: int|
                0 <= i < streets.len() && (#[trigger] streets[i]).id == Some(id)
                    && streets[i].segments@.contains(point);
            if i < front.len() {
                assert(front[i] == streets[i]);
            } else {
                assert(b[0] == id);
            }
        }
    }
}

/// The identifiers passing through a point are a set: none is listed twice,
/// and an identifier is listed exactly when it is not `own` and some street
/// with that identifier has `point` on its polyline.
pub proof fn lemma_passing_ids(streets: Seq<Walkable>, point: HashablePoint, own: u128, id: u128)
    ensures
        passing_ids(streets, point, own).no_duplicates(),
        passing_ids(streets, point, own).contains(id) <==> id != own && exists|i: int|
            0 <= i < streets.len() && (#[trigger] streets[i]).id == Some(id)
                && streets[i].segments@.contains(point),
{
    lemma_named_ids(streets, point, own, id);
    lemma_absorb_contains(Seq::<u128>::empty(), named_ids(streets, point, own), id);
    lemma_absorb_no_duplicates(Seq::<u128>::empty(), named_ids(streets, point, own));
}

/// Where two streets with different identifiers both pass through a point,
/// resolving the point names each of them from the other's side, and neither
/// from its own.
pub proof fn lemma_intersection_symmetry(
    streets: Seq<Walkable>,
    a: int,
    b: int,
    point: HashablePoint,
)
    requires
        0 <= a < streets.len(),
        0 <= b < streets.len(),
        streets[a].id is Some,
        streets[b].id is Some,
        streets[a].id != streets[b].id,
        streets[a].segments@.contains(point),
        streets[b].segments@.contains(point),
    ensures
        passing_ids(streets, point, streets[a].id->Some_0).contains(streets[b].id->Some_0),
        passing_ids(streets, point, streets[b].id->Some_0).contains(streets[a].id->Some_0),
        !passing_ids(streets, point, streets[a].id->Some_0).contains(streets[a].id->Some_0),
        !passing_ids(streets, point, streets[b].id->Some_0).contains(streets[b].id->Some_0),
{
    let ida = streets[a].id->Some_0;
    let idb = streets[b].id->Some_0;
    lemma_passing_ids(streets, point, ida, idb);
    lemma_passing_ids(streets, point, idb, ida);
    lemma_passing_ids(streets, point, ida, ida);
    lemma_passing_ids(streets, point, idb, idb);
}

} // verus!
