use domset::{
    build_graph, create_new_solutions_sets, create_test_graph, get_ball, nodes, LowerBound,
    SolutionSet, UnGraph,
};

fn graph(n: usize, edges: &[(usize, usize)]) -> UnGraph {
    build_graph(n, &edges.to_vec())
}

fn bound(whole: usize, numer: usize, denom: usize) -> LowerBound {
    LowerBound { whole, numer, denom }
}

#[test]
fn graph_reports_nodes_and_balls() {
    let g = create_test_graph();
    assert_eq!(nodes(&g), (0..10).collect::<Vec<usize>>());
    let mut b = get_ball(&g, 0);
    b.sort();
    assert_eq!(b, vec![0, 1, 2, 3, 4, 5]);
    let mut b = get_ball(&g, 9);
    b.sort();
    assert_eq!(b, vec![2, 9]);
}

#[test]
fn ball_counts_loops_and_parallel_edges_once() {
    let g = graph(3, &[(0, 1), (1, 0), (1, 1)]);
    let b = get_ball(&g, 1);
    assert_eq!(b.len(), 2);
    assert!(b.contains(&0) && b.contains(&1));
    let ss = SolutionSet::new(&g, vec![], vec![]);
    assert_eq!(ss.get_w_value(1), 2);
    let mut b = ss.get_ball(2);
    b.sort();
    assert_eq!(b, vec![2]);
}

#[test]
fn root_of_path_graph() {
    let g = graph(3, &[(0, 1), (1, 2)]);
    let ss = SolutionSet::new(&g, vec![], vec![]);
    assert_eq!(ss.get_covered_nodes(), Vec::<usize>::new());
    assert_eq!(ss.get_uncovered_nodes(), vec![0, 1, 2]);
    assert_eq!(ss.get_w_value(0), 2);
    assert_eq!(ss.get_w_value(1), 3);
    assert_eq!(ss.get_max_w_value(), 3);
    assert_eq!(ss.max_w_value_node(), Some(1));
    assert_eq!(ss.get_lower_bound(), bound(1, 0, 3));
    assert!(!ss.is_dominated());
}

#[test]
fn coverage_and_potentials_after_choosing_a() {
    let g = create_test_graph();
    let ss = SolutionSet::new(&g, vec![0], vec![]);
    assert_eq!(ss.get_covered_nodes(), vec![0, 1, 2, 3, 4, 5]);
    assert_eq!(ss.get_uncovered_nodes(), vec![6, 7, 8, 9]);
    assert_eq!(ss.w_entry(0), None);
    assert_eq!(ss.w_entry(4), Some(0));
    assert_eq!(ss.w_entry(7), Some(2));
    assert_eq!(ss.w_entry(8), Some(2));
    assert_eq!(ss.get_max_w_value(), 2);
    assert_eq!(ss.max_w_value_node(), Some(7));
    assert_eq!(ss.get_lower_bound(), bound(3, 0, 2));
    assert_eq!(ss.s_nodes(), vec![0]);
    assert_eq!(ss.t_nodes(), Vec::<usize>::new());
}

#[test]
fn root_and_rejection_bounds_of_ten_node_graph() {
    let g = create_test_graph();
    let root = SolutionSet::new(&g, vec![], vec![]);
    assert_eq!(root.get_max_w_value(), 6);
    assert_eq!(root.max_w_value_node(), Some(0));
    assert_eq!(root.get_lower_bound(), bound(1, 4, 6));
    let without_a = SolutionSet::new(&g, vec![], vec![0]);
    assert_eq!(without_a.max_w_value_node(), Some(2));
    assert_eq!(without_a.get_lower_bound(), bound(2, 2, 4));
    assert_eq!(without_a.w_entry(0), None);
}

#[test]
fn first_of_equal_potentials_is_branched_on() {
    let g = graph(4, &[(0, 1), (2, 3)]);
    let ss = SolutionSet::new(&g, vec![], vec![]);
    assert_eq!(ss.max_w_value_node(), Some(0));
    let ss = SolutionSet::new(&g, vec![], vec![0, 1]);
    assert_eq!(ss.max_w_value_node(), Some(2));
}

#[test]
fn dominated_state_has_zero_bound() {
    let g = create_test_graph();
    let ss = SolutionSet::new(&g, vec![2, 3, 7], vec![0]);
    assert!(ss.is_dominated());
    assert_eq!(ss.get_uncovered_nodes(), Vec::<usize>::new());
    assert_eq!(ss.get_max_w_value(), 0);
    assert_eq!(ss.max_w_value_node(), None);
    assert_eq!(ss.get_lower_bound(), bound(0, 0, 1));
}

#[test]
fn state_without_completion_has_no_branch_node() {
    let g = graph(1, &[]);
    let ss = SolutionSet::new(&g, vec![], vec![0]);
    assert!(!ss.is_dominated());
    assert_eq!(ss.max_w_value_node(), None);
    assert_eq!(ss.get_max_w_value(), 0);
    assert_eq!(ss.get_lower_bound(), bound(0, 0, 1));
}

#[test]
fn branching_adds_node_to_s_or_t() {
    let g = create_test_graph();
    let root = SolutionSet::new(&g, vec![], vec![]);
    let (with_a, without_a) = create_new_solutions_sets(&root, 0);
    assert_eq!(with_a.s_nodes(), vec![0]);
    assert_eq!(with_a.t_nodes(), Vec::<usize>::new());
    assert_eq!(without_a.s_nodes(), Vec::<usize>::new());
    assert_eq!(without_a.t_nodes(), vec![0]);
    assert_eq!(with_a.get_lower_bound(), bound(3, 0, 2));
    assert_eq!(without_a.get_lower_bound(), bound(2, 2, 4));
    assert_eq!(root.s_nodes(), Vec::<usize>::new());
}

#[test]
fn branching_twice_gives_identical_children() {
    let g = create_test_graph();
    let ss = SolutionSet::new(&g, vec![0], vec![3]);
    let (a1, b1) = create_new_solutions_sets(&ss, 7);
    let (a2, b2) = create_new_solutions_sets(&ss, 7);
    for (x, y) in [(&a1, &a2), (&b1, &b2)] {
        assert_eq!(x.s_nodes(), y.s_nodes());
        assert_eq!(x.t_nodes(), y.t_nodes());
        assert_eq!(x.max_w_value_node(), y.max_w_value_node());
        assert_eq!(x.get_lower_bound(), y.get_lower_bound());
        for v in 0..10 {
            assert_eq!(x.w_entry(v), y.w_entry(v));
        }
    }
}

#[test]
fn coverage_grows_when_a_node_is_chosen() {
    let g = create_test_graph();
    for n in 0..10 {
        let before = SolutionSet::new(&g, vec![9], vec![]).get_covered_nodes();
        let after = SolutionSet::new(&g, vec![9, n], vec![]).get_covered_nodes();
        assert!(before.iter().all(|x| after.contains(x)));
    }
}

#[test]
fn s_and_t_stay_disjoint_in_children() {
    let g = create_test_graph();
    let ss = SolutionSet::new(&g, vec![1], vec![4]);
    let (a, b) = create_new_solutions_sets(&ss, 6);
    for child in [&a, &b] {
        let s = child.s_nodes();
        assert!(child.t_nodes().iter().all(|x| !s.contains(x)));
    }
}

fn dominates(n: usize, edges: &[(usize, usize)], set: &[usize]) -> bool {
    (0..n).all(|x| {
        set.contains(&x)
            || edges
                .iter()
                .any(|&(a, b)| (a == x && set.contains(&b)) || (b == x && set.contains(&a)))
    })
}

#[test]
fn bound_never_exceeds_best_completion() {
    let n = 7;
    let edges = [(0, 1), (1, 2), (2, 3), (3, 4), (4, 5), (5, 6), (1, 5), (0, 6)];
    let g = graph(n, &edges);
    // Every split of the nodes into S, T and undecided, by base-3 digits.
    for code in 0..3usize.pow(n as u32) {
        let mut s = Vec::new();
        let mut t = Vec::new();
        let mut c = code;
        for v in 0..n {
            match c % 3 {
                1 => s.push(v),
                2 => t.push(v),
                _ => {}
            }
            c /= 3;
        }
        let ss = SolutionSet::new(&g, s.clone(), t.clone());
        let lb = ss.get_lower_bound();
        for mask in 0u32..(1 << n) {
            let d: Vec<usize> = (0..n).filter(|&i| mask & (1 << i) != 0).collect();
            if s.iter().all(|x| d.contains(x)) && t.iter().all(|x| !d.contains(x)) && dominates(n, &edges, &d) {
                assert!(lb.whole * lb.denom + lb.numer <= d.len() * lb.denom);
            }
        }
    }
}

#[test]
fn bounds_compare_as_fractions() {
    assert!(bound(1, 1, 2).le(&bound(1, 2, 3)));
    assert!(!bound(1, 2, 3).le(&bound(1, 1, 2)));
    assert!(bound(1, 2, 4).le(&bound(1, 1, 2)));
    assert!(bound(0, 5, 6).le(&bound(1, 0, 1)));
    assert!(!bound(2, 0, 1).le(&bound(1, 9, 10)));
}
