//! Turns street polylines, street lights and buildings into a weighted,
//! routable pedestrian graph.
//!
//! Every coordinate is held by the bit patterns of its two IEEE-754 doubles,
//! because two coordinates are the same point exactly when those patterns
//! agree. The geometry that needs real floating-point arithmetic (geodesic
//! lengths, midpoints, segment crossings) is done by the caller; this crate
//! holds the rules that decide what is sampled, what is associated with a
//! street, which streets meet where, and how the graph is assembled.

pub mod assembly;
pub mod float_order;
pub mod intersections;
pub mod nearest;
pub mod rating;
pub mod sampling;
pub mod sequences;
pub mod street_graph;
pub mod types;
