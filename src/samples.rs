//! Two small graphs to run the search on.
use crate::graph::{build_graph, graph_edges, graph_node_count, UnGraph};
use vstd::prelude::*;

verus! {

/// Ten nodes `a` .. `j` (0 .. 9) and twelve edges; its minimum dominating
/// sets have three nodes.
pub fn create_test_graph() -> (g: UnGraph)
    ensures
        graph_node_count(g) == 10,
        graph_edges(g) == seq![
            (0usize, 1usize), (0, 2), (0, 3), (0, 4), (0, 5), (2, 5),
            (2, 9), (3, 4), (3, 6), (5, 8), (7, 8), (1, 7),
        ],
{
    let edges: Vec<(usize, usize)> = vec![
        (0, 1), (0, 2), (0, 3), (0, 4), (0, 5), (2, 5),
        (2, 9), (3, 4), (3, 6), (5, 8), (7, 8), (1, 7),
    ];
    build_graph(10, &edges)
}

/// Eight nodes `a` .. `h` (0 .. 7): `a` joined to `b` and `c`, the other
/// five isolated.
pub fn create_test_graph2() -> (g: UnGraph)
    ensures
        graph_node_count(g) == 8,
        graph_edges(g) == seq![(0usize, 1usize), (0, 2)],
{
    let edges: Vec<(usize, usize)> = vec![(0, 1), (0, 2)];
    build_graph(8, &edges)
}

} // verus!
