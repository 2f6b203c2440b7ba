use domset::{build_graph, create_test_graph, create_test_graph2, minimum_dominating_set, UnGraph};

fn dominates(n: usize, edges: &[(usize, usize)], set: &[usize]) -> bool {
    (0..n).all(|x| {
        set.contains(&x)
            || edges
                .iter()
                .any(|&(a, b)| (a == x && set.contains(&b)) || (b == x && set.contains(&a)))
    })
}

fn graph(n: usize, edges: &[(usize, usize)]) -> UnGraph {
    build_graph(n, &edges.to_vec())
}

const TEST_EDGES: [(usize, usize); 12] = [
    (0, 1),
    (0, 2),
    (0, 3),
    (0, 4),
    (0, 5),
    (2, 5),
    (2, 9),
    (3, 4),
    (3, 6),
    (5, 8),
    (7, 8),
    (1, 7),
];

#[test]
fn path_of_three_has_middle_dominator() {
    let g = graph(3, &[(0, 1), (1, 2)]);
    assert_eq!(minimum_dominating_set(&g), vec![1]);
}

#[test]
fn two_triangles_need_one_node_each() {
    let edges = [(0, 1), (1, 2), (0, 2), (3, 4), (4, 5), (3, 5)];
    let g = graph(6, &edges);
    let r = minimum_dominating_set(&g);
    assert_eq!(r.len(), 2);
    assert!(r[0] < 3 && r[1] >= 3);
    assert!(dominates(6, &edges, &r));
}

#[test]
fn star_is_dominated_by_its_centre() {
    let edges: Vec<(usize, usize)> = (1..10).map(|leaf| (0, leaf)).collect();
    let g = graph(10, &edges);
    assert_eq!(minimum_dominating_set(&g), vec![0]);
}

#[test]
fn ten_node_graph_needs_three_nodes() {
    let g = create_test_graph();
    let r = minimum_dominating_set(&g);
    assert_eq!(r.len(), 3);
    assert!(dominates(10, &TEST_EDGES, &r));
    for a in 0..10 {
        for b in a..10 {
            assert!(!dominates(10, &TEST_EDGES, &[a, b]));
        }
    }
    assert_eq!(r, vec![2, 3, 7]);
}

#[test]
fn isolated_nodes_are_their_own_dominators() {
    let g = create_test_graph2();
    let r = minimum_dominating_set(&g);
    assert_eq!(r, vec![0, 3, 4, 5, 6, 7]);
}

#[test]
fn empty_graph_has_empty_dominating_set() {
    let g = graph(0, &[]);
    assert_eq!(minimum_dominating_set(&g), Vec::<usize>::new());
}

#[test]
fn single_node_dominates_itself() {
    let g = graph(1, &[]);
    assert_eq!(minimum_dominating_set(&g), vec![0]);
}

#[test]
fn loops_and_parallel_edges_do_not_change_the_answer() {
    let g = graph(3, &[(0, 1), (0, 1), (1, 1), (1, 2), (2, 2)]);
    assert_eq!(minimum_dominating_set(&g), vec![1]);
}

#[test]
fn result_is_minimum_on_small_graphs() {
    // A cycle of five nodes and a path of five nodes, checked by brute force.
    let cases: Vec<(usize, Vec<(usize, usize)>)> = vec![
        (5, vec![(0, 1), (1, 2), (2, 3), (3, 4), (4, 0)]),
        (5, vec![(0, 1), (1, 2), (2, 3), (3, 4)]),
        (7, vec![(0, 1), (1, 2), (2, 3), (3, 4), (4, 5), (5, 6), (1, 5)]),
    ];
    for (n, edges) in cases {
        let g = graph(n, &edges);
        let r = minimum_dominating_set(&g);
        assert!(dominates(n, &edges, &r));
        let mut best = n;
        for mask in 0u32..(1 << n) {
            let set: Vec<usize> = (0..n).filter(|&i| mask & (1 << i) != 0).collect();
            if set.len() < best && dominates(n, &edges, &set) {
                best = set.len();
            }
        }
        assert_eq!(r.len(), best);
    }
}
