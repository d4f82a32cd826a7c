//! The street graph: one node per distinct coordinate, at most one edge per
//! unordered pair of nodes.
//!
//! Nodes and edges are stored in a `petgraph::Graph`; a hash map from
//! coordinate keys to node indices finds the node of a coordinate.

use crate::types::{point_key, F64Wrapper, HashablePoint};
use std::collections::HashMap;
use vstd::prelude::*;
use vstd::std_specs::hash::*;

verus! {

broadcast use vstd::std_specs::hash::group_hash_axioms;

/// `petgraph::Undirected`, the marker of graphs whose edges have no
/// direction. It has no values; nothing is claimed of it.
#[verifier::external_type_specification]
#[verifier::external_body]
pub struct ExUndirected(petgraph::Undirected);

/// `petgraph::Graph`, carried as an opaque value. What a graph holds is
/// named by [`graph_nodes`] and [`graph_edges`].
#[verifier::external_type_specification]
#[verifier::external_body]
#[verifier::reject_recursive_types(N)]
#[verifier::reject_recursive_types(E)]
#[verifier::reject_recursive_types(Ty)]
#[verifier::reject_recursive_types(Ix)]
pub struct ExGraph<N, E, Ty, Ix>(petgraph::Graph<N, E, Ty, Ix>);

/// The node weights that a graph holds, in index order: the two bit patterns
/// of each coordinate.
pub uninterp spec fn graph_nodes(
    g: petgraph::Graph<(u64, u64), u32, petgraph::Undirected, usize>,
) -> Seq<(u64, u64)>;

/// The edges that a graph holds, in index order: source index, target index
/// and weight.
pub uninterp spec fn graph_edges(
    g: petgraph::Graph<(u64, u64), u32, petgraph::Undirected, usize>,
) -> Seq<(usize, usize, u32)>;

/// Whether a stored edge joins the node indices `a` and `b`, in either
/// direction.
pub open spec fn raw_joins(e: (usize, usize, u32), a: usize, b: usize) -> bool {
    (e.0 == a && e.1 == b) || (e.0 == b && e.1 == a)
}

/// Whether some stored edge joins the node indices `a` and `b`.
pub open spec fn raw_has_edge(edges: Seq<(usize, usize, u32)>, a: usize, b: usize) -> bool {
    exists|i: int| 0 <= i < edges.len() && raw_joins(#[trigger] edges[i], a, b)
}

/// `petgraph::Graph::with_capacity`, asked for no capacity: a graph without
/// nodes and without edges.
#[verifier::external_body]
fn graph_new() -> (g: petgraph::Graph<(u64, u64), u32, petgraph::Undirected, usize>)
    ensures
        graph_nodes(g) == Seq::<(u64, u64)>::empty(),
        graph_edges(g) == Seq::<(usize, usize, u32)>::empty(),
{
    petgraph::Graph::with_capacity(0, 0)
}

/// `petgraph::Graph::add_node`: the node is appended behind the others and its
/// index, the number of nodes before the call, is returned. The edges stay. With
/// `usize` indices the method's capacity assertion always holds.
#[verifier::external_body]
fn graph_add_node(
    g: &mut petgraph::Graph<(u64, u64), u32, petgraph::Undirected, usize>,
    x: u64,
    y: u64,
) -> (index: usize)
    ensures
        graph_nodes(*final(g)) == graph_nodes(*old(g)).push((x, y)),
        graph_edges(*final(g)) == graph_edges(*old(g)),
        index == graph_nodes(*old(g)).len(),
{
    g.add_node((x, y)).index()
}

/// `petgraph::Graph::add_edge`: the edge from `a` to `b` is appended behind the
/// others, whether or not the two are joined already. The nodes stay. The method
/// panics when a node index is out of bounds, which the precondition excludes.
#[verifier::external_body]
fn graph_add_edge(
    g: &mut petgraph::Graph<(u64, u64), u32, petgraph::Undirected, usize>,
    a: usize,
    b: usize,
    weight: u32,
)
    requires
        a < graph_nodes(*old(g)).len(),
        b < graph_nodes(*old(g)).len(),
    ensures
        graph_nodes(*final(g)) == graph_nodes(*old(g)),
        graph_edges(*final(g)) == graph_edges(*old(g)).push((a, b, weight)),
{
    g.add_edge(petgraph::graph::NodeIndex::new(a), petgraph::graph::NodeIndex::new(b), weight);
}

/// `petgraph::Graph::contains_edge` on an undirected graph: whether some edge
/// runs from `a` to `b` or from `b` to `a`.
#[verifier::external_body]
fn graph_contains_edge(
    g: &petgraph::Graph<(u64, u64), u32, petgraph::Undirected, usize>,
    a: usize,
    b: usize,
) -> (found: bool)
    ensures
        found == raw_has_edge(graph_edges(*g), a, b),
{
    g.contains_edge(petgraph::graph::NodeIndex::new(a), petgraph::graph::NodeIndex::new(b))
}

/// `petgraph::Graph::node_count`: the number of nodes.
#[verifier::external_body]
fn graph_node_count(g: &petgraph::Graph<(u64, u64), u32, petgraph::Undirected, usize>) -> (count:
    usize)
    ensures
        count == graph_nodes(*g).len(),
{
    g.node_count()
}

/// `petgraph::Graph::edge_count`: the number of edges.
#[verifier::external_body]
fn graph_edge_count(g: &petgraph::Graph<(u64, u64), u32, petgraph::Undirected, usize>) -> (count:
    usize)
    ensures
        count == graph_edges(*g).len(),
{
    g.edge_count()
}

/// `petgraph::Graph::node_weight`: the weight of the node with index `i`, or
/// nothing when there is no such node.
#[verifier::external_body]
fn graph_node_weight(
    g: &petgraph::Graph<(u64, u64), u32, petgraph::Undirected, usize>,
    i: usize,
) -> (weight: Option<(u64, u64)>)
    ensures
        weight == if i < graph_nodes(*g).len() {
            Some(graph_nodes(*g)[i as int])
        } else {
            None
        },
{
    g.node_weight(petgraph::graph::NodeIndex::new(i)).copied()
}

/// `petgraph::Graph::edge_endpoints`: source and target index of the edge with
/// index `i`, or nothing when there is no such edge.
#[verifier::external_body]
fn graph_edge_endpoints(
    g: &petgraph::Graph<(u64, u64), u32, petgraph::Undirected, usize>,
    i: usize,
) -> (ends: Option<(usize, usize)>)
    ensures
        ends == if i < graph_edges(*g).len() {
            Some((graph_edges(*g)[i as int].0, graph_edges(*g)[i as int].1))
        } else {
            None
        },
{
    g.edge_endpoints(petgraph::graph::EdgeIndex::new(i)).map(|(a, b)| (a.index(), b.index()))
}

/// `petgraph::Graph::edge_weight`: the weight of the edge with index `i`, or
/// nothing when there is no such edge.
#[verifier::external_body]
fn graph_edge_weight(
    g: &petgraph::Graph<(u64, u64), u32, petgraph::Undirected, usize>,
    i: usize,
) -> (weight: Option<u32>)
    ensures
        weight == if i < graph_edges(*g).len() {
            Some(graph_edges(*g)[i as int].2)
        } else {
            None
        },
{
    g.edge_weight(petgraph::graph::EdgeIndex::new(i)).copied()
}

/// An undirected, weighted edge between two coordinates.
#[derive(Clone, Copy, Debug, PartialEq, Eq, Structural)]
pub struct StreetEdge {
    pub from: HashablePoint,
    pub to: HashablePoint,
    pub weight: u32,
}

/// Whether an edge joins the coordinates `a` and `b`, in either direction.
pub open spec fn joins(e: StreetEdge, a: HashablePoint, b: HashablePoint) -> bool {
    (e.from == a && e.to == b) || (e.from == b && e.to == a)
}

/// Whether some edge of `edges` joins `a` and `b`.
pub open spec fn has_edge(edges: Seq<StreetEdge>, a: HashablePoint, b: HashablePoint) -> bool {
    exists|i: int| 0 <= i < edges.len() && joins(#[trigger] edges[i], a, b)
}

/// No two edges of `edges` join the same unordered pair of coordinates.
pub open spec fn simple(edges: Seq<StreetEdge>) -> bool {
    forall|i: int, j: int|
        0 <= i < j < edges.len() ==> !joins(#[trigger] edges[j], (#[trigger] edges[i]).from, edges[i].to)
}

/// The edges after asking for an edge between `a` and `b`: unchanged when the
/// two are joined already, else with the new edge behind the others.
pub open spec fn with_edge(edges: Seq<StreetEdge>, a: HashablePoint, b: HashablePoint, weight: u32) -> Seq<
    StreetEdge,
> {
    if has_edge(edges, a, b) {
        edges
    } else {
        edges.push(StreetEdge { from: a, to: b, weight })
    }
}

/// The coordinate that a stored node weight stands for.
pub open spec fn point_of(n: (u64, u64)) -> HashablePoint {
    HashablePoint { x: F64Wrapper(n.0), y: F64Wrapper(n.1) }
}

/// The street graph.
pub struct StreetGraph {
    graph: petgraph::Graph<(u64, u64), u32, petgraph::Undirected, usize>,
    index: HashMap<u128, usize>,
}

impl StreetGraph {
    /// The coordinates of the nodes, in the order in which they were created.
    pub closed spec fn nodes(&self) -> Seq<HashablePoint> {
        graph_nodes(self.graph).map_values(|n: (u64, u64)| point_of(n))
    }

    /// The edges, in the order in which they were inserted.
    pub closed spec fn edges(&self) -> Seq<StreetEdge> {
        graph_edges(self.graph).map_values(
            |e: (usize, usize, u32)|
                StreetEdge {
                    from: self.nodes()[e.0 as int],
                    to: self.nodes()[e.1 as int],
                    weight: e.2,
                },
        )
    }

    /// The lookup index and the stored edges fit the nodes.
    pub closed spec fn consistent(&self) -> bool {
        &&& forall|i: int|
            0 <= i < self.nodes().len() ==> {
                &&& self.index@.contains_key(#[trigger] point_key(self.nodes()[i]))
                &&& self.index@[point_key(self.nodes()[i])] == i
            }
        &&& forall|k: u128| #[trigger]
            self.index@.contains_key(k) ==> {
                &&& self.index@[k] < self.nodes().len()
                &&& point_key(self.nodes()[self.index@[k] as int]) == k
            }
        &&& forall|i: int|
            0 <= i < graph_edges(self.graph).len() ==> {
                &&& (#[trigger] graph_edges(self.graph)[i]).0 < self.nodes().len()
                &&& graph_edges(self.graph)[i].1 < self.nodes().len()
            }
    }

    /// The graph's invariant: no coordinate is a node twice, every edge runs
    /// between nodes, and no unordered pair of nodes is joined twice.
    pub open spec fn wf(&self) -> bool {
        &&& self.consistent()
        &&& self.nodes().no_duplicates()
        &&& simple(self.edges())
        &&& forall|i: int|
            0 <= i < self.edges().len() ==> {
                &&& self.nodes().contains((#[trigger] self.edges()[i]).from)
                &&& self.nodes().contains(self.edges()[i].to)
            }
    }

    /// What the stored edges say of two node indices is what the edges say of
    /// the two nodes' coordinates.
    proof fn lemma_raw_has_edge(&self, a: usize, b: usize)
        requires
            self.consistent(),
            self.nodes().no_duplicates(),
            a < self.nodes().len(),
            b < self.nodes().len(),
        ensures
            raw_has_edge(graph_edges(self.graph), a, b) == has_edge(
                self.edges(),
                self.nodes()[a as int],
                self.nodes()[b as int],
            ),
    {
        let raw = graph_edges(self.graph);
        let pa = self.nodes()[a as int];
        let pb = self.nodes()[b as int];
        if raw_has_edge(raw, a, b) {
            let i = choose|i: int| 0 <= i < raw.len() && raw_joins(#[trigger] raw[i], a, b);
            assert(joins(self.edges()[i], pa, pb));
        }
        if has_edge(self.edges(), pa, pb) {
            let i = choose|i: int|
                0 <= i < self.edges().len() && joins(#[trigger] self.edges()[i], pa, pb);
            assert(raw[i].0 < self.nodes().len() && raw[i].1 < self.nodes().len());
            assert(raw_joins(raw[i], a, b));
        }
    }

    /// A graph without nodes and without edges.
    pub fn new() -> (graph: StreetGraph)
        ensures
            graph.wf(),
            graph.nodes() == Seq::<HashablePoint>::empty(),
            graph.edges() == Seq::<StreetEdge>::empty(),
    {
        let graph = StreetGraph { graph: graph_new(), index: HashMap::new() };
        assert(graph.nodes() =~= Seq::<HashablePoint>::empty());
        assert(graph.edges() =~= Seq::<StreetEdge>::empty());
        graph
    }

    /// The number of nodes.
    pub fn node_count(&self) -> (count: usize)
        ensures
            count == self.nodes().len(),
    {
        graph_node_count(&self.graph)
    }

    /// The number of edges.
    pub fn edge_count(&self) -> (count: usize)
        ensures
            count == self.edges().len(),
    {
        graph_edge_count(&self.graph)
    }

    /// The index of the node at `point`, if there is one.
    pub fn find_node(&self, point: &HashablePoint) -> (found: Option<usize>)
        requires
            self.wf(),
        ensures
            match found {
                Some(i) => i < self.nodes().len() && self.nodes()[i as int] == *point,
                None => !self.nodes().contains(*point),
            },
    {
        let key = point.key();
        match self.index.get(&key) {
            Some(i) => Some(*i),
            None => {
                proof {
                    if self.nodes().contains(*point) {
                        let j = choose|j: int|
                            0 <= j < self.nodes().len() && self.nodes()[j] == *point;
                        assert(self.index@.contains_key(point_key(self.nodes()[j])));
                    }
                }
                None
            },
        }
    }

    /// The index of the node at `point`; the node is created behind the
    /// others when the coordinate has none yet. The first occurrence of a
    /// coordinate wins: later requests find the same node.
    pub fn node_for(&mut self, point: HashablePoint) -> (index: usize)
        requires
            old(self).wf(),
        ensures
            final(self).wf(),
            final(self).edges() == old(self).edges(),
            final(self).nodes() == if old(self).nodes().contains(point) {
                old(self).nodes()
            } else {
                old(self).nodes().push(point)
            },
            index < final(self).nodes().len(),
            final(self).nodes()[index as int] == point,
    {
        match self.find_node(&point) {
            Some(i) => i,
            None => {
                let ghost before = *self;
                let i = graph_add_node(&mut self.graph, point.x.0, point.y.0);
                self.index.insert(point.key(), i);
                proof {
                    assert(self.nodes() =~= before.nodes().push(point));
                    assert(self.edges() =~= before.edges());
                    assert forall|j: int| 0 <= j < self.nodes().len() implies {
                        &&& self.index@.contains_key(#[trigger] point_key(self.nodes()[j]))
                        &&& self.index@[point_key(self.nodes()[j])] == j
                    } by {
                        if j < before.nodes().len() {
                            assert(self.nodes()[j] == before.nodes()[j]);
                            assert(before.index@.contains_key(point_key(before.nodes()[j])));
                            assert(before.nodes()[j] != point);
                        }
                    }
                    assert forall|k: u128| #[trigger] self.index@.contains_key(k) implies {
                        &&& self.index@[k] < self.nodes().len()
                        &&& point_key(self.nodes()[self.index@[k] as int]) == k
                    } by {
                        if k != point_key(point) {
                            assert(before.index@.contains_key(k));
                        }
                    }
                    assert forall|j: int| 0 <= j < self.edges().len() implies {
                        &&& self.nodes().contains((#[trigger] self.edges()[j]).from)
                        &&& self.nodes().contains(self.edges()[j].to)
                    } by {
                        let e = before.edges()[j];
                        let f = choose|f: int| 0 <= f < before.nodes().len() && before.nodes()[f] == e.from;
                        let t = choose|t: int| 0 <= t < before.nodes().len() && before.nodes()[t] == e.to;
                        assert(self.nodes()[f] == e.from);
                        assert(self.nodes()[t] == e.to);
                    }
                }
                i
            },
        }
    }

    /// Whether the nodes with indices `a` and `b` are joined by an edge, in
    /// either direction.
    pub fn contains_edge(&self, a: usize, b: usize) -> (found: bool)
        requires
            self.wf(),
            a < self.nodes().len(),
            b < self.nodes().len(),
        ensures
            found == has_edge(self.edges(), self.nodes()[a as int], self.nodes()[b as int]),
    {
        proof {
            self.lemma_raw_has_edge(a, b);
        }
        graph_contains_edge(&self.graph, a, b)
    }

    /// Asks for an edge between the nodes with indices `a` and `b`. Where the
    /// two are joined already nothing changes, the weight of the edge that is
    /// there included; else the edge is inserted behind the others. Says
    /// whether an edge was inserted.
    pub fn insert_edge(&mut self, a: usize, b: usize, weight: u32) -> (inserted: bool)
        requires
            old(self).wf(),
            a < old(self).nodes().len(),
            b < old(self).nodes().len(),
        ensures
            final(self).wf(),
            final(self).nodes() == old(self).nodes(),
            final(self).edges() == with_edge(
                old(self).edges(),
                old(self).nodes()[a as int],
                old(self).nodes()[b as int],
                weight,
            ),
            inserted == !has_edge(
                old(self).edges(),
                old(self).nodes()[a as int],
                old(self).nodes()[b as int],
            ),
    {
        if self.contains_edge(a, b) {
            false
        } else {
            let ghost before = *self;
            graph_add_edge(&mut self.graph, a, b, weight);
            proof {
                let pa = before.nodes()[a as int];
                let pb = before.nodes()[b as int];
                assert(self.nodes() == before.nodes());
                assert(self.edges() =~= before.edges().push(
                    StreetEdge { from: pa, to: pb, weight },
                ));
                lemma_with_edge_simple(before.edges(), pa, pb, weight);
                assert forall|i: int| 0 <= i < self.edges().len() implies {
                    &&& self.nodes().contains((#[trigger] self.edges()[i]).from)
                    &&& self.nodes().contains(self.edges()[i].to)
                } by {
                    if i < before.edges().len() {
                        assert(self.edges()[i] == before.edges()[i]);
                    }
                }
            }
            true
        }
    }

    /// The coordinates of the nodes, in the order in which they were created.
    pub fn node_points(&self) -> (points: Vec<HashablePoint>)
        requires
            self.wf(),
        ensures
            points@ == self.nodes(),
    {
        let count = graph_node_count(&self.graph);
        let mut points: Vec<HashablePoint> = Vec::new();
        let mut i: usize = 0;
        while i < count
            invariant
                i <= count,
                count == self.nodes().len(),
                points@ == self.nodes().subrange(0, i as int),
            decreases count - i,
        {
            match graph_node_weight(&self.graph, i) {
                Some(n) => {
                    points.push(HashablePoint::new(n.0, n.1));
                },
                None => {},
            }
            assert(self.nodes().subrange(0, i + 1) =~= self.nodes().subrange(0, i as int).push(
                self.nodes()[i as int],
            ));
            i += 1;
        }
        assert(self.nodes().subrange(0, count as int) =~= self.nodes());
        points
    }

    /// The edges, in the order in which they were inserted.
    pub fn edge_list(&self) -> (edges: Vec<StreetEdge>)
        requires
            self.wf(),
        ensures
            edges@ == self.edges(),
    {
        let count = graph_edge_count(&self.graph);
        let mut edges: Vec<StreetEdge> = Vec::new();
        let mut i: usize = 0;
        while i < count
            invariant
                i <= count,
                self.wf(),
                count == self.edges().len(),
                edges@ == self.edges().subrange(0, i as int),
            decreases count - i,
        {
            let ends = graph_edge_endpoints(&self.graph, i);
            let weight = graph_edge_weight(&self.graph, i);
            match (ends, weight) {
                (Some((a, b)), Some(w)) => {
                    assert(graph_edges(self.graph)[i as int].0 == a);
                    match (graph_node_weight(&self.graph, a), graph_node_weight(&self.graph, b)) {
                        (Some(from), Some(to)) => {
                            edges.push(
                                StreetEdge {
                                    from: HashablePoint::new(from.0, from.1),
                                    to: HashablePoint::new(to.0, to.1),
                                    weight: w,
                                },
                            );
                        },
                        _ => {},
                    }
                },
                _ => {},
            }
            assert(self.edges().subrange(0, i + 1) =~= self.edges().subrange(0, i as int).push(
                self.edges()[i as int],
            ));
            i += 1;
        }
        assert(self.edges().subrange(0, count as int) =~= self.edges());
        edges
    }
}


/// Asking twice for an edge between the same two coordinates, in either
/// direction and with whatever weights, leaves the edges as they were after
/// the first request: no second edge, and the first weight stays.
pub proof fn lemma_edge_insertion_idempotent(
    edges: Seq<StreetEdge>,
    a: HashablePoint,
    b: HashablePoint,
    first_weight: u32,
    second_weight: u32,
)
    ensures
        with_edge(with_edge(edges, a, b, first_weight), a, b, second_weight) == with_edge(
            edges,
            a,
            b,
            first_weight,
        ),
        with_edge(with_edge(edges, a, b, first_weight), b, a, second_weight) == with_edge(
            edges,
            a,
            b,
            first_weight,
        ),
{
    let once = with_edge(edges, a, b, first_weight);
    if has_edge(edges, a, b) {
        let i = choose|i: int| 0 <= i < edges.len() && joins(#[trigger] edges[i], a, b);
        assert(joins(once[i], b, a));
    } else {
        assert(joins(once[edges.len() as int], a, b));
        assert(joins(once[edges.len() as int], b, a));
    }
}

/// Edges that are simple stay simple when an edge is asked for.
pub proof fn lemma_with_edge_simple(
    edges: Seq<StreetEdge>,
    a: HashablePoint,
    b: HashablePoint,
    weight: u32,
)
    requires
        simple(edges),
    ensures
        simple(with_edge(edges, a, b, weight)),
{
    let after = with_edge(edges, a, b, weight);
    if !has_edge(edges, a, b) {
        assert forall|i: int, j: int| 0 <= i < j < after.len() implies !joins(
            #[trigger] after[j],
            (#[trigger] after[i]).from,
            after[i].to,
        ) by {
            if j == edges.len() {
                if joins(after[j], after[i].from, after[i].to) {
                    assert(joins(edges[i], a, b));
                }
            } else {
                assert(after[i] == edges[i] && after[j] == edges[j]);
            }
        }
    }
}

} // verus!
