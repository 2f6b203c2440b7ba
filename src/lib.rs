//! Minimum dominating sets of undirected graphs by best-first branch and bound.
//!
//! A search state is a partial solution: a set `S` of chosen dominators and a
//! disjoint set `T` of nodes that will not be chosen.  Each state carries a
//! lower bound on the size of every dominating set that extends it, and the
//! search always expands the state with the smallest bound.
mod bound;
mod graph;
mod samples;
mod search;
mod solution;

pub use bound::{lemma_at_most_whole, lemma_le_is_value_order, lemma_le_total, lemma_le_transitive, LowerBound};
pub use graph::{
    adjacent, ball, build_graph, get_ball, graph_edges, graph_node_count, lemma_node_set_finite,
    node_set, nodes, UnGraph,
};
pub use samples::{create_test_graph, create_test_graph2};
pub use search::{
    frontier_inv, is_optimal_size, lemma_all_nodes_dominate, lemma_frontier_partition,
    minimum_dominating_set,
};
pub use solution::{
    covered_by, create_new_solutions_sets, extends, is_branch_node, is_branch_pair, is_dominating,
    lemma_admissible, lemma_branching_deterministic, lemma_coverage_monotone, lemma_partition,
    lemma_uncovered_bound, list_set, potential, uncovered_by, undecided, SolutionSet,
};
