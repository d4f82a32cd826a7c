//! Assembly of the street graph from streets whose intersections are
//! resolved: first the edges along each street, then the edges at the
//! coordinates where streets meet.

use crate::intersections::{
    all_identified, lemma_passing_ids, passing_ids, resolved_point, resolved_street,
};
use crate::rating::{assign_rating, rating};
use crate::sequences::{
    absorb, first_occurrences, lemma_absorb_concat, lemma_absorb_contains, lemma_absorb_push,
    lemma_first_occurrences_count,
};
use crate::street_graph::{with_edge, StreetEdge, StreetGraph};
use crate::types::{is_point_equivalent, HashablePoint, IntersectionPoint, Walkable};
use std::collections::HashMap;
use vstd::prelude::*;
use vstd::std_specs::hash::*;

verus! {

broadcast use vstd::std_specs::hash::group_hash_axioms;

/// The weight of an edge between two consecutive points of one street.
pub const INTERNAL_SIDEWALK_EDGE_WEIGHT: u32 = 1;

/// The polyline points of all streets, street after street.
pub open spec fn all_points(streets: Seq<Walkable>) -> Seq<HashablePoint>
    decreases streets.len(),
{
    if streets.len() == 0 {
        Seq::empty()
    } else {
        all_points(streets.drop_last()) + streets.last().segments@
    }
}

/// The edges after walking along one polyline: an internal edge is asked for
/// between each point and the next.
pub open spec fn path_edges(edges: Seq<StreetEdge>, points: Seq<HashablePoint>) -> Seq<StreetEdge>
    decreases points.len(),
{
    if points.len() < 2 {
        edges
    } else {
        with_edge(
            path_edges(edges, points.drop_last()),
            points[points.len() - 2],
            points[points.len() - 1],
            INTERNAL_SIDEWALK_EDGE_WEIGHT,
        )
    }
}

/// The edges after walking along the polylines of all streets in turn.
pub open spec fn all_path_edges(edges: Seq<StreetEdge>, streets: Seq<Walkable>) -> Seq<StreetEdge>
    decreases streets.len(),
{
    if streets.len() == 0 {
        edges
    } else {
        path_edges(all_path_edges(edges, streets.drop_last()), streets.last().segments@)
    }
}

/// Walks along every street: each point gets its node, found or created, and
/// each point is joined to the next by an internal edge unless the two are
/// joined already.
pub fn create_paths(graph: &mut StreetGraph, sidewalks: &Vec<Walkable>)
    requires
        old(graph).wf(),
    ensures
        final(graph).wf(),
        final(graph).nodes() == absorb(old(graph).nodes(), all_points(sidewalks@)),
        final(graph).edges() == all_path_edges(old(graph).edges(), sidewalks@),
{
    let mut s: usize = 0;
    assert(sidewalks@.take(0) =~= Seq::<Walkable>::empty());
    while s < sidewalks.len()
        invariant
            s <= sidewalks.len(),
            graph.wf(),
            graph.nodes() == absorb(old(graph).nodes(), all_points(sidewalks@.take(s as int))),
            graph.edges() == all_path_edges(old(graph).edges(), sidewalks@.take(s as int)),
        decreases sidewalks.len() - s,
    {
        let line_string = &sidewalks[s].segments;
        let ghost nodes_before = graph.nodes();
        let ghost edges_before = graph.edges();
        let mut prev: Option<usize> = None;
        let mut k: usize = 0;
        assert(line_string@.take(0) =~= Seq::<HashablePoint>::empty());
        while k < line_string.len()
            invariant
                k <= line_string.len(),
                graph.wf(),
                graph.nodes() == absorb(nodes_before, line_string@.take(k as int)),
                graph.edges() == path_edges(edges_before, line_string@.take(k as int)),
                match prev {
                    Some(p) => k > 0 && p < graph.nodes().len() && graph.nodes()[p as int]
                        == line_string@[k - 1],
                    None => k == 0,
                },
            decreases line_string.len() - k,
        {
            let point = line_string[k];
            let ghost walked = line_string@.take(k as int);
            proof {
                lemma_absorb_push(nodes_before, walked, point);
                assert(line_string@.take(k + 1) =~= walked.push(point));
                assert(line_string@.take(k + 1).drop_last() =~= walked);
            }
            let point_index = graph.node_for(point);
            if let Some(prev_index) = prev {
                graph.insert_edge(prev_index, point_index, INTERNAL_SIDEWALK_EDGE_WEIGHT);
            }
            prev = Some(point_index);
            k += 1;
        }
        proof {
            let done = sidewalks@.take(s as int);
            assert(line_string@.take(line_string.len() as int) =~= line_string@);
            assert(sidewalks@.take(s + 1).drop_last() =~= done);
            assert(sidewalks@.take(s + 1).last() == sidewalks@[s as int]);
            lemma_absorb_concat(old(graph).nodes(), all_points(done), line_string@);
        }
        s += 1;
    }
    assert(sidewalks@.take(sidewalks.len() as int) =~= sidewalks@);
}


/// For each identifier, the index of the last street that carries it.
pub open spec fn street_index(streets: Seq<Walkable>) -> Map<u128, usize>
    decreases streets.len(),
{
    if streets.len() == 0 {
        Map::empty()
    } else {
        match streets.last().id {
            Some(id) => street_index(streets.drop_last()).insert(id, (streets.len() - 1) as usize),
            None => street_index(streets.drop_last()),
        }
    }
}

/// Every value of the street index is the index of a street.
pub proof fn lemma_street_index_in_range(streets: Seq<Walkable>, id: u128)
    requires
        streets.len() <= usize::MAX,
        street_index(streets).contains_key(id),
    ensures
        street_index(streets)[id] < streets.len(),
        streets[street_index(streets)[id] as int].id == Some(id),
    decreases streets.len(),
{
    if streets.len() > 0 {
        if streets.last().id != Some(id) {
            lemma_street_index_in_range(streets.drop_last(), id);
            let at = street_index(streets.drop_last())[id] as int;
            assert(streets.drop_last()[at] == streets[at]);
        } else {
            assert(streets[streets.len() - 1] == streets.last());
        }
    }
}

/// The identifier of every street is a key of the street index.
pub proof fn lemma_street_index_complete(streets: Seq<Walkable>, i: int)
    requires
        0 <= i < streets.len(),
        streets[i].id is Some,
    ensures
        street_index(streets).contains_key(streets[i].id->Some_0),
    decreases streets.len(),
{
    if i < streets.len() - 1 {
        lemma_street_index_complete(streets.drop_last(), i);
    }
}

/// The side map from identifier to street, as the street's index in
/// `sidewalks`. Where two streets carry one identifier the later one is kept.
pub fn create_walkable_map(sidewalks: &Vec<Walkable>) -> (map: HashMap<u128, usize>)
    requires
        forall|i: int| 0 <= i < sidewalks@.len() ==> (#[trigger] sidewalks@[i]).id is Some,
    ensures
        map@ == street_index(sidewalks@),
        forall|id: u128| #[trigger]
            map@.contains_key(id) <==> exists|i: int|
                0 <= i < sidewalks@.len() && (#[trigger] sidewalks@[i]).id == Some(id),
        forall|id: u128| #[trigger]
            map@.contains_key(id) ==> map@[id] < sidewalks@.len() && sidewalks@[map@[id] as int].id
                == Some(id),
{
    let mut map: HashMap<u128, usize> = HashMap::new();
    let mut i: usize = 0;
    assert(sidewalks@.take(0) =~= Seq::<Walkable>::empty());
    while i < sidewalks.len()
        invariant
            i <= sidewalks.len(),
            forall|j: int| 0 <= j < sidewalks@.len() ==> (#[trigger] sidewalks@[j]).id is Some,
            map@ == street_index(sidewalks@.take(i as int)),
        decreases sidewalks.len() - i,
    {
        assert(sidewalks@.take(i + 1).drop_last() =~= sidewalks@.take(i as int));
        match sidewalks[i].id {
            Some(id) => {
                map.insert(id, i);
            },
            None => {},
        }
        i += 1;
    }
    proof {
        assert(sidewalks@.take(sidewalks.len() as int) =~= sidewalks@);
        assert forall|id: u128| #[trigger]
            map@.contains_key(id) <==> exists|i: int|
                0 <= i < sidewalks@.len() && (#[trigger] sidewalks@[i]).id == Some(id) by {
            lemma_street_index_keys(sidewalks@, id);
        }
        assert forall|id: u128| #[trigger] map@.contains_key(id) implies map@[id] < sidewalks@.len()
            && sidewalks@[map@[id] as int].id == Some(id) by {
            lemma_street_index_in_range(sidewalks@, id);
        }
    }
    map
}

/// The point of the street's polyline that is the same point as `inter_point`,
/// if the polyline passes through it.
pub fn find_point(sidewalk: &Walkable, inter_point: &HashablePoint) -> (found: Option<HashablePoint>)
    ensures
        match found {
            Some(p) => p == *inter_point && sidewalk.segments@.contains(p),
            None => !sidewalk.segments@.contains(*inter_point),
        },
{
    let mut i: usize = 0;
    while i < sidewalk.segments.len()
        invariant
            i <= sidewalk.segments.len(),
            forall|j: int| 0 <= j < i ==> sidewalk.segments@[j] != *inter_point,
        decreases sidewalk.segments.len() - i,
    {
        if is_point_equivalent(&sidewalk.segments[i], inter_point) {
            return Some(sidewalk.segments[i]);
        }
        i += 1;
    }
    None
}

/// Why the graph could not be assembled.
#[derive(Clone, Copy, Debug, PartialEq, Eq, Structural)]
pub enum GraphError {
    /// An intersection names a street identifier that no street carries.
    UnknownStreet { id: u128 },
    /// An intersection names a street whose polyline does not pass through the
    /// intersection's coordinate.
    PointNotOnStreet { id: u128, point: HashablePoint },
    /// The coordinate of an intersection has no node, although walking along
    /// the streets should have created one.
    NodeMissing { point: HashablePoint },
}

impl GraphError {
    /// Whether the error shows malformed input (an identifier or a coordinate
    /// that the streets do not have) rather than a broken internal invariant.
    pub fn is_malformed_input(&self) -> (malformed: bool)
        ensures
            malformed == !(*self is NodeMissing),
    {
        match self {
            GraphError::UnknownStreet { .. } => true,
            GraphError::PointNotOnStreet { .. } => true,
            GraphError::NodeMissing { .. } => false,
        }
    }
}

/// The edges after the street with identifier `own` has met the street `other`
/// at `point`, or the inconsistency that was found.
///
/// A street does not meet itself. The other street is looked up in `index` and
/// must pass through `point`; the point must have a node. Both ends of the edge
/// that is asked for are the node of `point`, because the other street's
/// matching point is the same point; its weight is the other street's rating.
pub open spec fn meet(
    edges: Seq<StreetEdge>,
    nodes: Seq<HashablePoint>,
    streets: Seq<Walkable>,
    index: Map<u128, usize>,
    own: Option<u128>,
    point: HashablePoint,
    other: u128,
) -> Result<Seq<StreetEdge>, GraphError> {
    if own == Some(other) {
        Ok(edges)
    } else if !index.contains_key(other) {
        Err(GraphError::UnknownStreet { id: other })
    } else if !streets[index[other] as int].segments@.contains(point) {
        Err(GraphError::PointNotOnStreet { id: other, point })
    } else if !nodes.contains(point) {
        Err(GraphError::NodeMissing { point })
    } else {
        Ok(with_edge(edges, point, point, rating(streets[index[other] as int].lights@.len())))
    }
}

/// [`meet`] for each identifier of `ids` in turn, up to the first
/// inconsistency.
pub open spec fn meet_ids(
    edges: Seq<StreetEdge>,
    nodes: Seq<HashablePoint>,
    streets: Seq<Walkable>,
    index: Map<u128, usize>,
    own: Option<u128>,
    point: HashablePoint,
    ids: Seq<u128>,
) -> Result<Seq<StreetEdge>, GraphError>
    decreases ids.len(),
{
    if ids.len() == 0 {
        Ok(edges)
    } else {
        match meet_ids(edges, nodes, streets, index, own, point, ids.drop_last()) {
            Ok(sofar) => meet(sofar, nodes, streets, index, own, point, ids.last()),
            Err(e) => Err(e),
        }
    }
}

/// [`meet_ids`] for each intersection of `points` in turn, up to the first
/// inconsistency.
pub open spec fn meet_points(
    edges: Seq<StreetEdge>,
    nodes: Seq<HashablePoint>,
    streets: Seq<Walkable>,
    index: Map<u128, usize>,
    own: Option<u128>,
    points: Seq<IntersectionPoint>,
) -> Result<Seq<StreetEdge>, GraphError>
    decreases points.len(),
{
    if points.len() == 0 {
        Ok(edges)
    } else {
        match meet_points(edges, nodes, streets, index, own, points.drop_last()) {
            Ok(sofar) => meet_ids(
                sofar,
                nodes,
                streets,
                index,
                own,
                points.last().intersection_point,
                points.last().intersecting_street_ids@,
            ),
            Err(e) => Err(e),
        }
    }
}

/// [`meet_points`] for each street of `asking` in turn, up to the first
/// inconsistency. `streets` are the streets that `index` points into.
pub open spec fn meet_streets(
    edges: Seq<StreetEdge>,
    nodes: Seq<HashablePoint>,
    streets: Seq<Walkable>,
    index: Map<u128, usize>,
    asking: Seq<Walkable>,
) -> Result<Seq<StreetEdge>, GraphError>
    decreases asking.len(),
{
    if asking.len() == 0 {
        Ok(edges)
    } else {
        match meet_streets(edges, nodes, streets, index, asking.drop_last()) {
            Ok(sofar) => meet_points(
                sofar,
                nodes,
                streets,
                index,
                asking.last().id,
                asking.last().intersection_points@,
            ),
            Err(e) => Err(e),
        }
    }
}

/// An inconsistency found among the first identifiers is the result for all
/// of them.
pub proof fn lemma_meet_ids_stops(
    edges: Seq<StreetEdge>,
    nodes: Seq<HashablePoint>,
    streets: Seq<Walkable>,
    index: Map<u128, usize>,
    own: Option<u128>,
    point: HashablePoint,
    ids: Seq<u128>,
    k: int,
)
    requires
        0 <= k <= ids.len(),
        meet_ids(edges, nodes, streets, index, own, point, ids.take(k)) is Err,
    ensures
        meet_ids(edges, nodes, streets, index, own, point, ids) == meet_ids(
            edges,
            nodes,
            streets,
            index,
            own,
            point,
            ids.take(k),
        ),
    decreases ids.len(),
{
    if k == ids.len() {
        assert(ids.take(k) =~= ids);
    } else {
        assert(ids.drop_last().take(k) =~= ids.take(k));
        lemma_meet_ids_stops(edges, nodes, streets, index, own, point, ids.drop_last(), k);
    }
}

/// An inconsistency found among the first intersections is the result for all
/// of them.
pub proof fn lemma_meet_points_stops(
    edges: Seq<StreetEdge>,
    nodes: Seq<HashablePoint>,
    streets: Seq<Walkable>,
    index: Map<u128, usize>,
    own: Option<u128>,
    points: Seq<IntersectionPoint>,
    k: int,
)
    requires
        0 <= k <= points.len(),
        meet_points(edges, nodes, streets, index, own, points.take(k)) is Err,
    ensures
        meet_points(edges, nodes, streets, index, own, points) == meet_points(
            edges,
            nodes,
            streets,
            index,
            own,
            points.take(k),
        ),
    decreases points.len(),
{
    if k == points.len() {
        assert(points.take(k) =~= points);
    } else {
        assert(points.drop_last().take(k) =~= points.take(k));
        lemma_meet_points_stops(edges, nodes, streets, index, own, points.drop_last(), k);
    }
}

/// An inconsistency found among the first streets is the result for all of
/// them.
pub proof fn lemma_meet_streets_stops(
    edges: Seq<StreetEdge>,
    nodes: Seq<HashablePoint>,
    streets: Seq<Walkable>,
    index: Map<u128, usize>,
    asking: Seq<Walkable>,
    k: int,
)
    requires
        0 <= k <= asking.len(),
        meet_streets(edges, nodes, streets, index, asking.take(k)) is Err,
    ensures
        meet_streets(edges, nodes, streets, index, asking) == meet_streets(
            edges,
            nodes,
            streets,
            index,
            asking.take(k),
        ),
    decreases asking.len(),
{
    if k == asking.len() {
        assert(asking.take(k) =~= asking);
    } else {
        assert(asking.drop_last().take(k) =~= asking.take(k));
        lemma_meet_streets_stops(edges, nodes, streets, index, asking.drop_last(), k);
    }
}


/// What [`connect_intersections`] asks of a street: it has an identifier if
/// one of its intersections names another street.
pub open spec fn asks_with_id(street: Walkable) -> bool {
    forall|j: int|
        0 <= j < street.intersection_points@.len() && (
        #[trigger] street.intersection_points@[j]).intersecting_street_ids@.len() > 0
            ==> street.id is Some
}

/// Joins the streets where they meet. For every street, every intersection
/// of it and every street identifier that the intersection names, but the
/// street's own: the named street is looked up in `walkable_map`, the
/// coordinate is looked for on its polyline, and an edge with the named
/// street's rating is asked for at the coordinate's node. The first
/// inconsistency ends the assembly and is returned.
pub fn connect_intersections(
    graph: StreetGraph,
    sidewalks: &Vec<Walkable>,
    walkable_map: &HashMap<u128, usize>,
) -> (connected: Result<StreetGraph, GraphError>)
    requires
        graph.wf(),
        forall|id: u128| #[trigger]
            walkable_map@.contains_key(id) ==> walkable_map@[id] < sidewalks@.len(),
        forall|i: int| 0 <= i < sidewalks@.len() ==> asks_with_id(#[trigger] sidewalks@[i]),
    ensures
        connected is Ok <==> streets_consistent(
            graph.nodes(),
            sidewalks@,
            walkable_map@,
            sidewalks@,
        ),
        match connected {
            Ok(joined) => {
                &&& joined.wf()
                &&& joined.nodes() == graph.nodes()
                &&& meet_streets(
                    graph.edges(),
                    graph.nodes(),
                    sidewalks@,
                    walkable_map@,
                    sidewalks@,
                ) == Ok::<Seq<StreetEdge>, GraphError>(joined.edges())
            },
            Err(e) => meet_streets(
                graph.edges(),
                graph.nodes(),
                sidewalks@,
                walkable_map@,
                sidewalks@,
            ) == Err::<Seq<StreetEdge>, GraphError>(e),
        },
{
    let ghost nodes = graph.nodes();
    let ghost edges = graph.edges();
    let ghost streets = sidewalks@;
    let ghost index = walkable_map@;
    proof {
        lemma_meet_streets_succeeds(edges, nodes, streets, index, streets);
    }
    let mut joined = graph;
    let mut s: usize = 0;
    assert(streets.take(0) =~= Seq::<Walkable>::empty());
    while s < sidewalks.len()
        invariant
            s <= sidewalks.len(),
            streets == sidewalks@,
            index == walkable_map@,
            joined.wf(),
            joined.nodes() == nodes,
            nodes == graph.nodes(),
            edges == graph.edges(),
            forall|id: u128| #[trigger] index.contains_key(id) ==> index[id] < streets.len(),
            forall|i: int| 0 <= i < streets.len() ==> asks_with_id(#[trigger] streets[i]),
            meet_streets(edges, nodes, streets, index, streets.take(s as int)) == Ok::<
                Seq<StreetEdge>,
                GraphError,
            >(joined.edges()),
        decreases sidewalks.len() - s,
    {
        let sidewalk = &sidewalks[s];
        let ghost own = sidewalk.id;
        let ghost street_start = joined.edges();
        let ghost points = sidewalk.intersection_points@;
        proof {
            assert(streets.take(s + 1).drop_last() =~= streets.take(s as int));
            assert(streets.take(s + 1).last() == streets[s as int]);
            assert(points.take(0) =~= Seq::<IntersectionPoint>::empty());
            assert(asks_with_id(streets[s as int]));
        }
        let mut j: usize = 0;
        while j < sidewalk.intersection_points.len()
            invariant
                j <= sidewalk.intersection_points.len(),
                s < sidewalks.len(),
                streets == sidewalks@,
                index == walkable_map@,
                *sidewalk == streets[s as int],
                own == sidewalk.id,
                points == sidewalk.intersection_points@,
                asks_with_id(*sidewalk),
                joined.wf(),
                joined.nodes() == nodes,
                nodes == graph.nodes(),
                edges == graph.edges(),
                forall|id: u128| #[trigger] index.contains_key(id) ==> index[id] < streets.len(),
                meet_streets(edges, nodes, streets, index, streets.take(s as int)) == Ok::<
                    Seq<StreetEdge>,
                    GraphError,
                >(street_start),
                meet_points(street_start, nodes, streets, index, own, points.take(j as int))
                    == Ok::<Seq<StreetEdge>, GraphError>(joined.edges()),
            decreases sidewalk.intersection_points.len() - j,
        {
            let intersection_point = &sidewalk.intersection_points[j];
            let point = intersection_point.intersection_point;
            let ghost point_start = joined.edges();
            let ghost ids = intersection_point.intersecting_street_ids@;
            proof {
                assert(points.take(j + 1).drop_last() =~= points.take(j as int));
                assert(points.take(j + 1).last() == points[j as int]);
                assert(ids.take(0) =~= Seq::<u128>::empty());
            }
            let mut k: usize = 0;
            while k < intersection_point.intersecting_street_ids.len()
                invariant
                    k <= intersection_point.intersecting_street_ids.len(),
                    s < sidewalks.len(),
                    j < sidewalk.intersection_points.len(),
                    streets == sidewalks@,
                    index == walkable_map@,
                    *sidewalk == streets[s as int],
                    *intersection_point == points[j as int],
                    own == sidewalk.id,
                    points == sidewalk.intersection_points@,
                    ids == intersection_point.intersecting_street_ids@,
                    point == intersection_point.intersection_point,
                    asks_with_id(*sidewalk),
                    joined.wf(),
                    joined.nodes() == nodes,
                    nodes == graph.nodes(),
                    edges == graph.edges(),
                    forall|id: u128| #[trigger]
                        index.contains_key(id) ==> index[id] < streets.len(),
                    meet_streets(edges, nodes, streets, index, streets.take(s as int)) == Ok::<
                        Seq<StreetEdge>,
                        GraphError,
                    >(street_start),
                    meet_points(street_start, nodes, streets, index, own, points.take(j as int))
                        == Ok::<Seq<StreetEdge>, GraphError>(point_start),
                    meet_ids(point_start, nodes, streets, index, own, point, ids.take(k as int))
                        == Ok::<Seq<StreetEdge>, GraphError>(joined.edges()),
                decreases intersection_point.intersecting_street_ids.len() - k,
            {
                let intersecting_id = intersection_point.intersecting_street_ids[k];
                proof {
                    assert(ids.take(k + 1).drop_last() =~= ids.take(k as int));
                    assert(ids.take(k + 1).last() == intersecting_id);
                    assert(sidewalk.id is Some);
                }
                let failure: Option<GraphError> = if sidewalk.id == Some(intersecting_id) {
                    None
                } else {
                    match walkable_map.get(&intersecting_id) {
                        None => Some(GraphError::UnknownStreet { id: intersecting_id }),
                        Some(at) => {
                            let intersecting_sidewalk = &sidewalks[*at];
                            match find_point(intersecting_sidewalk, &point) {
                                None => Some(
                                    GraphError::PointNotOnStreet { id: intersecting_id, point },
                                ),
                                Some(intersecting_sidewalk_point) => {
                                    match (
                                        joined.find_node(&intersecting_sidewalk_point),
                                        joined.find_node(&point),
                                    ) {
                                        (Some(there), Some(here)) => {
                                            let weight = assign_rating(intersecting_sidewalk);
                                            joined.insert_edge(here, there, weight);
                                            None
                                        },
                                        _ => Some(GraphError::NodeMissing { point }),
                                    }
                                },
                            }
                        },
                    }
                };
                assert(meet_ids(point_start, nodes, streets, index, own, point, ids.take(k + 1))
                    == match failure {
                    Some(e) => Err::<Seq<StreetEdge>, GraphError>(e),
                    None => Ok::<Seq<StreetEdge>, GraphError>(joined.edges()),
                });
                if let Some(e) = failure {
                    proof {
                        lemma_meet_ids_stops(
                            point_start,
                            nodes,
                            streets,
                            index,
                            own,
                            point,
                            ids,
                            k + 1,
                        );
                        assert(points.take(j + 1).drop_last() =~= points.take(j as int));
                        assert(points.take(j + 1).last() == points[j as int]);
                        lemma_meet_points_stops(
                            street_start,
                            nodes,
                            streets,
                            index,
                            own,
                            points,
                            j + 1,
                        );
                        assert(streets.take(s + 1).drop_last() =~= streets.take(s as int));
                        assert(streets.take(s + 1).last() == streets[s as int]);
                        lemma_meet_streets_stops(edges, nodes, streets, index, streets, s + 1);
                    }
                    return Err(e);
                }
                k += 1;
            }
            assert(ids.take(ids.len() as int) =~= ids);
            j += 1;
        }
        assert(points.take(points.len() as int) =~= points);
        s += 1;
    }
    assert(streets.take(streets.len() as int) =~= streets);
    Ok(joined)
}

/// Assembles the street graph: one node per distinct coordinate of the
/// polylines, the internal edges along each street, then the edges at the
/// coordinates where streets meet.
pub fn build_graph(sidewalks: &Vec<Walkable>) -> (built: Result<StreetGraph, GraphError>)
    requires
        forall|i: int| 0 <= i < sidewalks@.len() ==> (#[trigger] sidewalks@[i]).id is Some,
    ensures
        built is Ok <==> streets_consistent(
            first_occurrences(all_points(sidewalks@)),
            sidewalks@,
            street_index(sidewalks@),
            sidewalks@,
        ),
        match built {
            Ok(graph) => {
                &&& graph.wf()
                &&& graph.nodes() == first_occurrences(all_points(sidewalks@))
                &&& graph.nodes().len() == all_points(sidewalks@).to_set().len()
                &&& meet_streets(
                    all_path_edges(Seq::empty(), sidewalks@),
                    first_occurrences(all_points(sidewalks@)),
                    sidewalks@,
                    street_index(sidewalks@),
                    sidewalks@,
                ) == Ok::<Seq<StreetEdge>, GraphError>(graph.edges())
            },
            Err(e) => {
                &&& meet_streets(
                    all_path_edges(Seq::empty(), sidewalks@),
                    first_occurrences(all_points(sidewalks@)),
                    sidewalks@,
                    street_index(sidewalks@),
                    sidewalks@,
                ) == Err::<Seq<StreetEdge>, GraphError>(e)
                &&& !(e is NodeMissing)
            },
        },
{
    let walkable_map = create_walkable_map(sidewalks);
    let mut graph = StreetGraph::new();
    assert(sidewalks@.len() == sidewalks.len());
    create_paths(&mut graph, sidewalks);
    proof {
        assert forall|id: u128| #[trigger] walkable_map@.contains_key(id) implies walkable_map@[id]
            < sidewalks@.len() by {
            lemma_street_index_in_range(sidewalks@, id);
        }
        lemma_one_node_per_coordinate(sidewalks@);
        lemma_first_occurrences_cover(sidewalks@);
        lemma_meet_streets_finds_nodes(
            graph.edges(),
            graph.nodes(),
            sidewalks@,
            walkable_map@,
            sidewalks@,
        );
    }
    connect_intersections(graph, sidewalks, &walkable_map)
}


/// A point of a street's polyline is among the points of all streets.
pub proof fn lemma_all_points_contains(streets: Seq<Walkable>, i: int, point: HashablePoint)
    requires
        0 <= i < streets.len(),
        streets[i].segments@.contains(point),
    ensures
        all_points(streets).contains(point),
    decreases streets.len(),
{
    let front = all_points(streets.drop_last());
    let last = streets.last().segments@;
    if i == streets.len() - 1 {
        let at = choose|at: int| 0 <= at < last.len() && last[at] == point;
        assert((front + last)[front.len() + at] == point);
    } else {
        lemma_all_points_contains(streets.drop_last(), i, point);
        let at = choose|at: int| 0 <= at < front.len() && front[at] == point;
        assert((front + last)[at] == point);
    }
}

/// The graph has one node for each distinct coordinate of the polylines: as
/// many nodes as the polylines have different points, none of them twice.
pub proof fn lemma_one_node_per_coordinate(streets: Seq<Walkable>)
    ensures
        first_occurrences(all_points(streets)).no_duplicates(),
        first_occurrences(all_points(streets)).to_set() == all_points(streets).to_set(),
        first_occurrences(all_points(streets)).len() == all_points(streets).to_set().len(),
{
    lemma_first_occurrences_count(all_points(streets));
}

/// Whether every polyline point of the streets is among `nodes`.
pub open spec fn covers(nodes: Seq<HashablePoint>, streets: Seq<Walkable>) -> bool {
    forall|i: int, point: HashablePoint|
        0 <= i < streets.len() && (#[trigger] streets[i]).segments@.contains(point)
            ==> #[trigger] nodes.contains(point)
}

/// Where every polyline point has a node, streets that meet never find a node
/// missing.
pub proof fn lemma_meet_ids_finds_nodes(
    edges: Seq<StreetEdge>,
    nodes: Seq<HashablePoint>,
    streets: Seq<Walkable>,
    index: Map<u128, usize>,
    own: Option<u128>,
    point: HashablePoint,
    ids: Seq<u128>,
)
    requires
        covers(nodes, streets),
        forall|id: u128| #[trigger] index.contains_key(id) ==> index[id] < streets.len(),
    ensures
        match meet_ids(edges, nodes, streets, index, own, point, ids) {
            Ok(_) => true,
            Err(e) => !(e is NodeMissing),
        },
    decreases ids.len(),
{
    if ids.len() > 0 {
        lemma_meet_ids_finds_nodes(edges, nodes, streets, index, own, point, ids.drop_last());
    }
}

/// Where every polyline point has a node, no intersection of a street finds
/// a node missing.
pub proof fn lemma_meet_points_finds_nodes(
    edges: Seq<StreetEdge>,
    nodes: Seq<HashablePoint>,
    streets: Seq<Walkable>,
    index: Map<u128, usize>,
    own: Option<u128>,
    points: Seq<IntersectionPoint>,
)
    requires
        covers(nodes, streets),
        forall|id: u128| #[trigger] index.contains_key(id) ==> index[id] < streets.len(),
    ensures
        match meet_points(edges, nodes, streets, index, own, points) {
            Ok(_) => true,
            Err(e) => !(e is NodeMissing),
        },
    decreases points.len(),
{
    if points.len() > 0 {
        lemma_meet_points_finds_nodes(edges, nodes, streets, index, own, points.drop_last());
        match meet_points(edges, nodes, streets, index, own, points.drop_last()) {
            Ok(sofar) => {
                lemma_meet_ids_finds_nodes(
                    sofar,
                    nodes,
                    streets,
                    index,
                    own,
                    points.last().intersection_point,
                    points.last().intersecting_street_ids@,
                );
            },
            Err(_) => {},
        }
    }
}

/// Where every polyline point has a node, joining the streets never finds a
/// node missing: an inconsistency, if there is one, lies in the input.
pub proof fn lemma_meet_streets_finds_nodes(
    edges: Seq<StreetEdge>,
    nodes: Seq<HashablePoint>,
    streets: Seq<Walkable>,
    index: Map<u128, usize>,
    asking: Seq<Walkable>,
)
    requires
        covers(nodes, streets),
        forall|id: u128| #[trigger] index.contains_key(id) ==> index[id] < streets.len(),
    ensures
        match meet_streets(edges, nodes, streets, index, asking) {
            Ok(_) => true,
            Err(e) => !(e is NodeMissing),
        },
    decreases asking.len(),
{
    if asking.len() > 0 {
        lemma_meet_streets_finds_nodes(edges, nodes, streets, index, asking.drop_last());
        match meet_streets(edges, nodes, streets, index, asking.drop_last()) {
            Ok(sofar) => {
                lemma_meet_points_finds_nodes(
                    sofar,
                    nodes,
                    streets,
                    index,
                    asking.last().id,
                    asking.last().intersection_points@,
                );
            },
            Err(_) => {},
        }
    }
}

/// The nodes made from the polylines of the streets cover them.
pub proof fn lemma_first_occurrences_cover(streets: Seq<Walkable>)
    ensures
        covers(first_occurrences(all_points(streets)), streets),
{
    assert forall|i: int, point: HashablePoint|
        0 <= i < streets.len() && (#[trigger] streets[i]).segments@.contains(
            point,
        ) implies #[trigger] first_occurrences(all_points(streets)).contains(point) by {
        lemma_all_points_contains(streets, i, point);
        lemma_absorb_contains(Seq::<HashablePoint>::empty(), all_points(streets), point);
    }
}


/// The two ends of each of the first `n` segments of a polyline, segment
/// after segment.
pub open spec fn segment_ends(points: Seq<HashablePoint>, n: int) -> Seq<HashablePoint>
    decreases n,
{
    if n <= 0 {
        Seq::empty()
    } else {
        segment_ends(points, n - 1).push(points[n - 1]).push(points[n])
    }
}

/// The number of segments of a polyline.
pub open spec fn segment_count(points: Seq<HashablePoint>) -> int {
    if points.len() == 0 {
        0
    } else {
        points.len() - 1
    }
}

/// The ends of all segments of all streets, street after street.
pub open spec fn all_segment_ends(streets: Seq<Walkable>) -> Seq<HashablePoint>
    decreases streets.len(),
{
    if streets.len() == 0 {
        Seq::empty()
    } else {
        all_segment_ends(streets.drop_last()) + segment_ends(
            streets.last().segments@,
            segment_count(streets.last().segments@),
        )
    }
}

/// The points to build a spatial index of segment ends from: start and end of
/// every segment of every street. A point between two segments is there twice.
pub fn load_segment_points(sidewalks: &Vec<Walkable>) -> (points: Vec<HashablePoint>)
    ensures
        points@ == all_segment_ends(sidewalks@),
{
    let mut points: Vec<HashablePoint> = Vec::new();
    let mut s: usize = 0;
    assert(sidewalks@.take(0) =~= Seq::<Walkable>::empty());
    while s < sidewalks.len()
        invariant
            s <= sidewalks.len(),
            points@ == all_segment_ends(sidewalks@.take(s as int)),
        decreases sidewalks.len() - s,
    {
        let line_string = &sidewalks[s].segments;
        let ghost front = points@;
        let mut k: usize = 1;
        assert(front + segment_ends(line_string@, 0) =~= front);
        while k < line_string.len()
            invariant
                1 <= k,
                k <= line_string.len() || (line_string.len() == 0 && k == 1),
                points@ == front + segment_ends(line_string@, k - 1),
            decreases line_string.len() - k,
        {
            points.push(line_string[k - 1]);
            points.push(line_string[k]);
            assert(points@ =~= front + segment_ends(line_string@, k as int));
            k += 1;
        }
        assert(sidewalks@.take(s + 1).drop_last() =~= sidewalks@.take(s as int));
        assert(sidewalks@.take(s + 1).last() == sidewalks@[s as int]);
        s += 1;
    }
    assert(sidewalks@.take(sidewalks.len() as int) =~= sidewalks@);
    points
}


/// Whether the street with the identifier `own` can meet the street `other`
/// at `point`: it is the street itself, or the other street is known, passes
/// through the point, and the point has a node.
pub open spec fn meets_consistently(
    nodes: Seq<HashablePoint>,
    streets: Seq<Walkable>,
    index: Map<u128, usize>,
    own: Option<u128>,
    point: HashablePoint,
    other: u128,
) -> bool {
    own == Some(other) || (index.contains_key(other) && streets[index[other] as int].segments@.contains(
        point,
    ) && nodes.contains(point))
}

/// Whether every street that an intersection names can be met at it.
pub open spec fn point_consistent(
    nodes: Seq<HashablePoint>,
    streets: Seq<Walkable>,
    index: Map<u128, usize>,
    own: Option<u128>,
    point: HashablePoint,
    ids: Seq<u128>,
) -> bool {
    forall|k: int|
        0 <= k < ids.len() ==> meets_consistently(nodes, streets, index, own, point, #[trigger] ids[k])
}

/// Whether every intersection of `points` is consistent.
pub open spec fn points_consistent(
    nodes: Seq<HashablePoint>,
    streets: Seq<Walkable>,
    index: Map<u128, usize>,
    own: Option<u128>,
    points: Seq<IntersectionPoint>,
) -> bool {
    forall|j: int|
        0 <= j < points.len() ==> point_consistent(
            nodes,
            streets,
            index,
            own,
            (#[trigger] points[j]).intersection_point,
            points[j].intersecting_street_ids@,
        )
}

/// Whether every intersection of every street of `asking` is consistent.
pub open spec fn streets_consistent(
    nodes: Seq<HashablePoint>,
    streets: Seq<Walkable>,
    index: Map<u128, usize>,
    asking: Seq<Walkable>,
) -> bool {
    forall|s: int|
        0 <= s < asking.len() ==> points_consistent(
            nodes,
            streets,
            index,
            (#[trigger] asking[s]).id,
            asking[s].intersection_points@,
        )
}

/// The identifiers of an intersection are met without inconsistency exactly
/// when each of them can be met.
pub proof fn lemma_meet_ids_succeeds(
    edges: Seq<StreetEdge>,
    nodes: Seq<HashablePoint>,
    streets: Seq<Walkable>,
    index: Map<u128, usize>,
    own: Option<u128>,
    point: HashablePoint,
    ids: Seq<u128>,
)
    ensures
        meet_ids(edges, nodes, streets, index, own, point, ids) is Ok <==> point_consistent(
            nodes,
            streets,
            index,
            own,
            point,
            ids,
        ),
    decreases ids.len(),
{
    if ids.len() > 0 {
        let front = ids.drop_last();
        lemma_meet_ids_succeeds(edges, nodes, streets, index, own, point, front);
        if point_consistent(nodes, streets, index, own, point, ids) {
            assert forall|k: int| 0 <= k < front.len() implies meets_consistently(
                nodes,
                streets,
                index,
                own,
                point,
                #[trigger] front[k],
            ) by {
                assert(front[k] == ids[k]);
            }
            assert(ids[ids.len() - 1] == ids.last());
        }
        if meet_ids(edges, nodes, streets, index, own, point, ids) is Ok {
            assert forall|k: int| 0 <= k < ids.len() implies meets_consistently(
                nodes,
                streets,
                index,
                own,
                point,
                #[trigger] ids[k],
            ) by {
                if k < front.len() {
                    assert(front[k] == ids[k]);
                }
            }
        }
    }
}

/// The intersections of a street are met without inconsistency exactly when
/// each of them is consistent.
pub proof fn lemma_meet_points_succeeds(
    edges: Seq<StreetEdge>,
    nodes: Seq<HashablePoint>,
    streets: Seq<Walkable>,
    index: Map<u128, usize>,
    own: Option<u128>,
    points: Seq<IntersectionPoint>,
)
    ensures
        meet_points(edges, nodes, streets, index, own, points) is Ok <==> points_consistent(
            nodes,
            streets,
            index,
            own,
            points,
        ),
    decreases points.len(),
{
    if points.len() > 0 {
        let front = points.drop_last();
        lemma_meet_points_succeeds(edges, nodes, streets, index, own, front);
        match meet_points(edges, nodes, streets, index, own, front) {
            Ok(sofar) => {
                lemma_meet_ids_succeeds(
                    sofar,
                    nodes,
                    streets,
                    index,
                    own,
                    points.last().intersection_point,
                    points.last().intersecting_street_ids@,
                );
            },
            Err(_) => {},
        }
        if points_consistent(nodes, streets, index, own, points) {
            assert forall|j: int| 0 <= j < front.len() implies point_consistent(
                nodes,
                streets,
                index,
                own,
                (#[trigger] front[j]).intersection_point,
                front[j].intersecting_street_ids@,
            ) by {
                assert(front[j] == points[j]);
            }
            assert(points[points.len() - 1] == points.last());
        }
        if meet_points(edges, nodes, streets, index, own, points) is Ok {
            assert forall|j: int| 0 <= j < points.len() implies point_consistent(
                nodes,
                streets,
                index,
                own,
                (#[trigger] points[j]).intersection_point,
                points[j].intersecting_street_ids@,
            ) by {
                if j < front.len() {
                    assert(front[j] == points[j]);
                }
            }
        }
    }
}

/// The streets are joined without inconsistency exactly when every
/// intersection of every street is consistent.
pub proof fn lemma_meet_streets_succeeds(
    edges: Seq<StreetEdge>,
    nodes: Seq<HashablePoint>,
    streets: Seq<Walkable>,
    index: Map<u128, usize>,
    asking: Seq<Walkable>,
)
    ensures
        meet_streets(edges, nodes, streets, index, asking) is Ok <==> streets_consistent(
            nodes,
            streets,
            index,
            asking,
        ),
    decreases asking.len(),
{
    if asking.len() > 0 {
        let front = asking.drop_last();
        lemma_meet_streets_succeeds(edges, nodes, streets, index, front);
        match meet_streets(edges, nodes, streets, index, front) {
            Ok(sofar) => {
                lemma_meet_points_succeeds(
                    sofar,
                    nodes,
                    streets,
                    index,
                    asking.last().id,
                    asking.last().intersection_points@,
                );
            },
            Err(_) => {},
        }
        if streets_consistent(nodes, streets, index, asking) {
            assert forall|s: int| 0 <= s < front.len() implies points_consistent(
                nodes,
                streets,
                index,
                (#[trigger] front[s]).id,
                front[s].intersection_points@,
            ) by {
                assert(front[s] == asking[s]);
            }
            assert(asking[asking.len() - 1] == asking.last());
        }
        if meet_streets(edges, nodes, streets, index, asking) is Ok {
            assert forall|s: int| 0 <= s < asking.len() implies points_consistent(
                nodes,
                streets,
                index,
                (#[trigger] asking[s]).id,
                asking[s].intersection_points@,
            ) by {
                if s < front.len() {
                    assert(front[s] == asking[s]);
                }
            }
        }
    }
}

/// The keys of the street index are the identifiers that streets carry.
pub proof fn lemma_street_index_keys(streets: Seq<Walkable>, id: u128)
    requires
        streets.len() <= usize::MAX,
    ensures
        street_index(streets).contains_key(id) <==> exists|i: int|
            0 <= i < streets.len() && (#[trigger] streets[i]).id == Some(id),
{
    if street_index(streets).contains_key(id) {
        lemma_street_index_in_range(streets, id);
    }
    if exists|i: int| 0 <= i < streets.len() && (#[trigger] streets[i]).id == Some(id) {
        let i = choose|i: int| 0 <= i < streets.len() && (#[trigger] streets[i]).id == Some(id);
        lemma_street_index_complete(streets, i);
    }
}


/// Whether no two streets carry the same identifier.
pub open spec fn distinct_ids(streets: Seq<Walkable>) -> bool {
    forall|i: int, j: int|
        0 <= i < j < streets.len() ==> (#[trigger] streets[i]).id != (#[trigger] streets[j]).id
}

/// Whether a street with the identifier `other` passes through `point`, or
/// `other` is the asking street itself.
pub open spec fn names_passing_street(
    streets: Seq<Walkable>,
    own: Option<u128>,
    point: HashablePoint,
    other: u128,
) -> bool {
    own == Some(other) || exists|i: int|
        0 <= i < streets.len() && (#[trigger] streets[i]).id == Some(other)
            && streets[i].segments@.contains(point)
}

/// Among streets with distinct identifiers, a street that passes through a
/// point can be met there once the graph has the nodes of all polylines.
pub proof fn lemma_passing_street_meets(
    streets: Seq<Walkable>,
    own: Option<u128>,
    point: HashablePoint,
    other: u128,
)
    requires
        streets.len() <= usize::MAX,
        distinct_ids(streets),
        names_passing_street(streets, own, point, other),
    ensures
        meets_consistently(
            first_occurrences(all_points(streets)),
            streets,
            street_index(streets),
            own,
            point,
            other,
        ),
{
    if own != Some(other) {
        let i = choose|i: int|
            0 <= i < streets.len() && (#[trigger] streets[i]).id == Some(other)
                && streets[i].segments@.contains(point);
        lemma_street_index_complete(streets, i);
        lemma_street_index_in_range(streets, other);
        let at = street_index(streets)[other] as int;
        assert(streets[at].id == streets[i].id);
        assert(at == i);
        lemma_first_occurrences_cover(streets);
    }
}

/// Streets whose intersections were resolved assemble without inconsistency.
///
/// `after` are the streets of `before`, each with its intersection records
/// naming the streets of `before` that pass through the record's coordinate.
/// Where all streets have identifiers and no two the same, every meeting that
/// the assembly of `after` asks for is consistent.
pub proof fn lemma_resolved_streets_assemble(before: Seq<Walkable>, after: Seq<Walkable>)
    requires
        before.len() == after.len(),
        before.len() <= usize::MAX,
        all_identified(before),
        distinct_ids(before),
        forall|i: int|
            0 <= i < before.len() ==> (#[trigger] after[i])@ == resolved_street(before, before[i]@),
    ensures
        streets_consistent(
            first_occurrences(all_points(after)),
            after,
            street_index(after),
            after,
        ),
{
    let nodes = first_occurrences(all_points(after));
    let index = street_index(after);
    assert forall|i: int| 0 <= i < after.len() implies (#[trigger] after[i]).id == before[i].id
        && after[i].segments@ == before[i].segments@ by {
        assert(after[i]@ == resolved_street(before, before[i]@));
        assert(before[i].id is Some);
    }
    assert(distinct_ids(after)) by {
        assert forall|i: int, j: int| 0 <= i < j < after.len() implies (#[trigger] after[i]).id != (
        #[trigger] after[j]).id by {
            assert(before[i].id != before[j].id);
        }
    }
    assert forall|s: int| 0 <= s < after.len() implies points_consistent(
        nodes,
        after,
        index,
        (#[trigger] after[s]).id,
        after[s].intersection_points@,
    ) by {
        let own = before[s].id->Some_0;
        assert(before[s].id is Some);
        assert(after[s]@ == resolved_street(before, before[s]@));
        let records = after[s].intersection_points@;
        assert forall|j: int| 0 <= j < records.len() implies point_consistent(
            nodes,
            after,
            index,
            after[s].id,
            (#[trigger] records[j]).intersection_point,
            records[j].intersecting_street_ids@,
        ) by {
            let point = records[j].intersection_point;
            let ids = records[j].intersecting_street_ids@;
            let resolved = resolved_street(before, before[s]@);
            assert(after[s]@.intersection_points.len() == records.len());
            assert(resolved.intersection_points.len() == before[s]@.intersection_points.len());
            assert(after[s]@.intersection_points == resolved.intersection_points);
            assert(after[s]@.intersection_points[j] == records[j]@);
            assert(resolved.intersection_points[j] == resolved_point(
                before,
                own,
                before[s]@.intersection_points[j],
            ));
            assert(after[s]@.intersection_points[j] == resolved_point(
                before,
                own,
                before[s]@.intersection_points[j],
            ));
            assert(ids == passing_ids(before, point, own));
            assert forall|k: int| 0 <= k < ids.len() implies meets_consistently(
                nodes,
                after,
                index,
                after[s].id,
                point,
                #[trigger] ids[k],
            ) by {
                assert(passing_ids(before, point, own).contains(ids[k]));
                lemma_passing_ids(before, point, own, ids[k]);
                let i = choose|i: int|
                    0 <= i < before.len() && (#[trigger] before[i]).id == Some(ids[k])
                        && before[i].segments@.contains(point);
                assert(after[i].id == Some(ids[k]) && after[i].segments@.contains(point));
                lemma_passing_street_meets(after, after[s].id, point, ids[k]);
            }
        }
    }
}

} // verus!
