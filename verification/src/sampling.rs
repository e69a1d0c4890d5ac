//! Random directed edges between numbered nodes.

use crate::entropy::draw_in_range;
use vstd::prelude::*;

verus! {

/// An edge joins two different nodes, both numbered below `num_nodes`.
pub open spec fn is_proper_edge(edge: (usize, usize), num_nodes: usize) -> bool {
    edge.0 < num_nodes && edge.1 < num_nodes && edge.0 != edge.1
}

/// Appends the edge from `from` to `to`, unless it is a loop from a node to
/// itself.
pub fn record_edge(edges: &mut Vec<(usize, usize)>, from: usize, to: usize)
    ensures
        final(edges)@ == if from != to {
            old(edges)@.push((from, to))
        } else {
            old(edges)@
        },
{
    if from != to {
        edges.push((from, to));
    }
}

/// Draws `num_edges` pairs of nodes at random and keeps, in the order drawn,
/// those that join two different nodes.
///
/// So there are at most `num_edges` edges, and each is a proper edge between
/// nodes numbered below `num_nodes`. Which pairs are drawn is up to the
/// random source. Edges cannot be drawn among no nodes.
pub fn generate_random_graph(num_nodes: usize, num_edges: usize) -> (edges: Vec<(usize, usize)>)
    requires
        num_nodes > 0 || num_edges == 0,
    ensures
        edges@.len() <= num_edges,
        forall|i: int| 0 <= i < edges@.len() ==> is_proper_edge(#[trigger] edges@[i], num_nodes),
{
    let mut rng = rand::thread_rng();
    let mut edges: Vec<(usize, usize)> = Vec::new();
    let mut drawn: usize = 0;
    while drawn < num_edges
        invariant
            num_nodes > 0 || num_edges == 0,
            drawn <= num_edges,
            edges@.len() <= drawn,
            forall|i: int|
                0 <= i < edges@.len() ==> is_proper_edge(#[trigger] edges@[i], num_nodes),
        decreases num_edges - drawn,
    {
        let from = draw_in_range(&mut rng, 0, num_nodes as u64) as usize;
        let to = draw_in_range(&mut rng, 0, num_nodes as u64) as usize;
        record_edge(&mut edges, from, to);
        drawn = drawn + 1;
    }
    edges
}

} // verus!
