//! The undirected graph the search runs on: a `petgraph` graph whose node
//! indices are `usize` values `0 .. node_count`.
use vstd::prelude::*;

verus! {

/// The graph type of the library: no node or edge weights, `usize` indices.
pub type UnGraph = petgraph::Graph<(), (), petgraph::Undirected, usize>;

#[verifier::external_type_specification]
#[verifier::external_body]
#[verifier::reject_recursive_types(N)]
#[verifier::reject_recursive_types(E)]
#[verifier::reject_recursive_types(Ty)]
#[verifier::reject_recursive_types(Ix)]
pub struct ExGraph<N, E, Ty, Ix>(petgraph::Graph<N, E, Ty, Ix>);

#[verifier::external_type_specification]
#[verifier::external_body]
pub struct ExUndirected(petgraph::Undirected);

/// The number of nodes of a graph; its nodes are `0 .. graph_node_count(g)`.
pub uninterp spec fn graph_node_count(g: petgraph::Graph<(), (), petgraph::Undirected, usize>) -> usize;

/// The edges of a graph as endpoint pairs, in the graph's edge order (the
/// order of addition while no edge is removed).
pub uninterp spec fn graph_edges(g: petgraph::Graph<(), (), petgraph::Undirected, usize>) -> Seq<(usize, usize)>;

/// Relies on `Graph::with_capacity`: the new graph has no nodes and no edges.
#[verifier::external_body]
fn empty_graph() -> (g: UnGraph)
    ensures
        graph_node_count(g) == 0,
        graph_edges(g) == Seq::<(usize, usize)>::empty(),
{
    petgraph::Graph::with_capacity(0, 0)
}

/// Relies on `Graph::add_node`: the new node gets the next index, edges stay.
/// With `usize` indices it never reaches the index type's maximum.
#[verifier::external_body]
fn push_node(g: &mut UnGraph) -> (r: usize)
    ensures
        r == graph_node_count(*old(g)),
        graph_node_count(*final(g)) == graph_node_count(*old(g)) + 1,
        graph_edges(*final(g)) == graph_edges(*old(g)),
{
    g.add_node(()).index()
}

/// Relies on `Graph::add_edge`: the edge `(a, b)` is appended to the edge
/// list.  It panics unless both endpoints are nodes of the graph.
#[verifier::external_body]
fn push_edge(g: &mut UnGraph, a: usize, b: usize)
    requires
        a < graph_node_count(*old(g)),
        b < graph_node_count(*old(g)),
    ensures
        graph_node_count(*final(g)) == graph_node_count(*old(g)),
        graph_edges(*final(g)) == graph_edges(*old(g)).push((a, b)),
{
    g.add_edge(petgraph::graph::NodeIndex::new(a), petgraph::graph::NodeIndex::new(b), ());
}

/// Relies on `Graph::node_count`: the number of nodes.
#[verifier::external_body]
pub(crate) fn node_count(g: &UnGraph) -> (r: usize)
    ensures
        r == graph_node_count(*g),
{
    g.node_count()
}

/// Relies on `Graph::neighbors`: on an undirected graph it yields, for each
/// edge that touches `a`, the other endpoint (`a` itself for a loop).  Every
/// endpoint of an edge is a node of the graph.
#[verifier::external_body]
fn neighbor_list(g: &UnGraph, a: usize) -> (r: Vec<usize>)
    requires
        a < graph_node_count(*g),
    ensures
        forall|i: int| 0 <= i < r@.len() ==> r@[i] < graph_node_count(*g),
        forall|b: usize| r@.contains(b) <==> adjacent(*g, a, b),
{
    g.neighbors(petgraph::graph::NodeIndex::new(a)).map(|n| n.index()).collect()
}

/// Whether some edge joins `a` and `b`, in either direction.
pub open spec fn adjacent(g: UnGraph, a: usize, b: usize) -> bool {
    exists|i: int|
        0 <= i < graph_edges(g).len() && (graph_edges(g)[i] == (a, b) || graph_edges(g)[i] == (b, a))
}

/// All nodes of the graph.
pub open spec fn node_set(g: UnGraph) -> Set<usize> {
    Set::new(|x: usize| x < graph_node_count(g))
}

/// The closed neighbourhood of `a`: `a` and every node joined to it.
pub open spec fn ball(g: UnGraph, a: usize) -> Set<usize> {
    Set::new(|x: usize| x < graph_node_count(g) && (x == a || adjacent(g, a, x)))
}

/// The nodes below `k`, as a finite set of `k` elements.
pub proof fn lemma_below_finite(k: usize)
    ensures
        Set::new(|x: usize| x < k).finite(),
        Set::new(|x: usize| x < k).len() == k,
    decreases k,
{
    if k == 0 {
        assert(Set::new(|x: usize| x < k) =~= Set::empty());
    } else {
        let j = (k - 1) as usize;
        lemma_below_finite(j);
        assert(Set::new(|x: usize| x < k) =~= Set::new(|x: usize| x < j).insert(j));
    }
}

/// The node set is finite, of the graph's node count.
pub proof fn lemma_node_set_finite(g: UnGraph)
    ensures
        node_set(g).finite(),
        node_set(g).len() == graph_node_count(g),
{
    lemma_below_finite(graph_node_count(g));
    assert(node_set(g) =~= Set::new(|x: usize| x < graph_node_count(g)));
}

/// A graph with `n` nodes and the given edges, added in order.
pub fn build_graph(n: usize, edges: &Vec<(usize, usize)>) -> (g: UnGraph)
    requires
        forall|i: int| 0 <= i < edges@.len() ==> edges@[i].0 < n && edges@[i].1 < n,
    ensures
        graph_node_count(g) == n,
        graph_edges(g) == edges@,
{
    let mut g = empty_graph();
    let mut i: usize = 0;
    while i < n
        invariant
            i <= n,
            graph_node_count(g) == i,
            graph_edges(g) == Seq::<(usize, usize)>::empty(),
        decreases n - i,
    {
        push_node(&mut g);
        i = i + 1;
    }
    let mut j: usize = 0;
    while j < edges.len()
        invariant
            j <= edges@.len(),
            graph_node_count(g) == n,
            graph_edges(g) == edges@.subrange(0, j as int),
            forall|i: int| 0 <= i < edges@.len() ==> edges@[i].0 < n && edges@[i].1 < n,
        decreases edges@.len() - j,
    {
        let (a, b) = edges[j];
        push_edge(&mut g, a, b);
        assert(edges@.subrange(0, j as int).push((a, b)) =~= edges@.subrange(0, j as int + 1));
        j = j + 1;
    }
    assert(edges@.subrange(0, edges@.len() as int) =~= edges@);
    g
}

/// All nodes of the graph, in increasing order: `0 .. node_count`.
pub fn nodes(g: &UnGraph) -> (r: Vec<usize>)
    ensures
        r@.len() == graph_node_count(*g),
        forall|i: int| 0 <= i < r@.len() ==> r@[i] == i,
{
    let n = node_count(g);
    let mut r: Vec<usize> = Vec::new();
    let mut i: usize = 0;
    while i < n
        invariant
            i <= n,
            r@.len() == i,
            forall|k: int| 0 <= k < i ==> r@[k] == k,
        decreases n - i,
    {
        r.push(i);
        i = i + 1;
    }
    r
}

/// The closed neighbourhood of `a`, each node once.
pub fn get_ball(g: &UnGraph, a: usize) -> (r: Vec<usize>)
    requires
        a < graph_node_count(*g),
    ensures
        r@.no_duplicates(),
        forall|x: usize| r@.contains(x) <==> ball(*g, a).contains(x),
{
    let n = node_count(g);
    let nb = neighbor_list(g, a);
    let mut seen: Vec<bool> = Vec::new();
    let mut k: usize = 0;
    while k < n
        invariant
            k <= n,
            seen@.len() == k,
            forall|i: int| 0 <= i < k ==> !seen@[i],
        decreases n - k,
    {
        seen.push(false);
        k = k + 1;
    }
    let mut r: Vec<usize> = Vec::new();
    r.push(a);
    seen.set(a, true);
    assert forall|x: usize| r@.contains(x) <==> x == a by {
        if x == a {
            assert(r@[0] == x);
        }
    }
    assert(nb@.subrange(0, 0) =~= Seq::<usize>::empty());
    let mut j: usize = 0;
    while j < nb.len()
        invariant
            n == graph_node_count(*g),
            a < n,
            seen@.len() == n,
            forall|i: int| 0 <= i < nb@.len() ==> nb@[i] < n,
            forall|b: usize| nb@.contains(b) <==> adjacent(*g, a, b),
            j <= nb@.len(),
            r@.no_duplicates(),
            forall|x: usize| x < n ==> (seen@[x as int] <==> r@.contains(x)),
            forall|x: usize| r@.contains(x) <==> (x == a || nb@.subrange(0, j as int).contains(x)),
        decreases nb@.len() - j,
    {
        let x = nb[j];
        assert(nb@.subrange(0, j as int + 1) =~= nb@.subrange(0, j as int).push(x));
        let ghost r0 = r@;
        if !seen[x] {
            r.push(x);
            seen.set(x, true);
            assert forall|y: usize| r@.contains(y) <==> (r0.contains(y) || y == x) by {
                if r@.contains(y) {
                    let i = choose|i: int| 0 <= i < r@.len() && r@[i] == y;
                    if i < r0.len() {
                        assert(r0[i] == y);
                    }
                }
                if r0.contains(y) {
                    let i = choose|i: int| 0 <= i < r0.len() && r0[i] == y;
                    assert(r@[i] == y);
                }
                if y == x {
                    assert(r@[r0.len() as int] == y);
                }
            }
        } else {
            assert(r0.contains(x));
            assert(r@ == r0);
        }
        assert forall|y: usize|
            nb@.subrange(0, j as int + 1).contains(y) <==> (nb@.subrange(0, j as int).contains(y) || y == x) by {
            let s0 = nb@.subrange(0, j as int);
            let s1 = nb@.subrange(0, j as int + 1);
            if s1.contains(y) {
                let i = choose|i: int| 0 <= i < s1.len() && s1[i] == y;
                if i < s0.len() {
                    assert(s0[i] == y);
                }
            }
            if s0.contains(y) {
                let i = choose|i: int| 0 <= i < s0.len() && s0[i] == y;
                assert(s1[i] == y);
            }
            if y == x {
                assert(s1[j as int] == y);
            }
        }
        assert forall|y: usize| r@.contains(y) <==> (y == a || nb@.subrange(0, j as int + 1).contains(y)) by {
            assert(r0.contains(y) <==> (y == a || nb@.subrange(0, j as int).contains(y)));
            assert(r@.contains(y) <==> (r0.contains(y) || y == x));
        }
        j = j + 1;
    }
    assert(nb@.subrange(0, nb@.len() as int) =~= nb@);
    assert forall|x: usize| r@.contains(x) <==> ball(*g, a).contains(x) by {
        if r@.contains(x) && x != a {
            assert(nb@.contains(x));
            let i = choose|i: int| 0 <= i < nb@.len() && nb@[i] == x;
            assert(x < n);
        }
    }
    r
}

} // verus!
