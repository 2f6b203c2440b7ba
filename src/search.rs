//! Best-first branch and bound over partial solutions.
use crate::bound::{lemma_le_total, lemma_le_transitive, LowerBound};
use crate::graph::{ball, lemma_node_set_finite, node_set, UnGraph};
use crate::solution::{
    covered_by, create_new_solutions_sets, extends, is_branch_pair, is_dominating,
    lemma_admissible, lemma_coverage_monotone, lemma_ball_finite, lemma_covered_finite,
    lemma_uncovered_bound, list_set, lemma_branch_node_max, undecided, SolutionSet,
};
use vstd::prelude::*;

verus! {

/// No dominating set is smaller than `k`.
pub open spec fn is_optimal_size(g: UnGraph, k: nat) -> bool {
    forall|d: Set<usize>| #[trigger] is_dominating(g, d) ==> k <= d.len()
}

/// The entries are ordered by ascending lower bound.
pub open spec fn sorted_by_bound(f: Seq<(LowerBound, SolutionSet)>) -> bool {
    forall|i: int, j: int| 0 <= i < j < f.len() ==> (#[trigger] f[i].0).spec_le(#[trigger] f[j].0)
}

/// Some entry of `f` has a choice of `S` and `T` that `d` keeps.
pub open spec fn extends_some(f: Seq<(LowerBound, SolutionSet)>, d: Set<usize>) -> bool {
    exists|i: int| 0 <= i < f.len() && extends(d, (#[trigger] f[i]).1.s_set(), f[i].1.t_set())
}

/// The size of the full binary search tree below a state with `k` undecided nodes.
pub open spec fn subtree_size(k: nat) -> nat
    decreases k,
{
    if k == 0 {
        1
    } else {
        1 + 2 * subtree_size((k - 1) as nat)
    }
}

/// How many states the search can still visit from these entries.
pub open spec fn pending(f: Seq<(LowerBound, SolutionSet)>) -> nat
    decreases f.len(),
{
    if f.len() == 0 {
        0
    } else {
        subtree_size(f[0].1.undecided().len()) + pending(f.drop_first())
    }
}

proof fn lemma_pending_insert(f: Seq<(LowerBound, SolutionSet)>, pos: int, e: (LowerBound, SolutionSet))
    requires
        0 <= pos <= f.len(),
    ensures
        pending(f.insert(pos, e)) == pending(f) + subtree_size(e.1.undecided().len()),
    decreases pos,
{
    if pos == 0 {
        assert(f.insert(pos, e).drop_first() =~= f);
    } else {
        lemma_pending_insert(f.drop_first(), pos - 1, e);
        assert(f.insert(pos, e).drop_first() =~= f.drop_first().insert(pos - 1, e));
    }
}

/// The entries of a frontier: well-formed partial solutions of `g`, each
/// keyed by its own lower bound.
pub open spec fn entries_ok(g: UnGraph, f: Seq<(LowerBound, SolutionSet)>) -> bool {
    forall|i: int|
        0 <= i < f.len() ==> {
            &&& (#[trigger] f[i]).1.wf()
            &&& f[i].1.graph() == g
            &&& f[i].0 == f[i].1.bound()
            &&& f[i].0.valid()
        }
}

/// Inserts `e` after every entry whose bound is at most its own, so that
/// entries of equal bound leave in the order they came.
fn insert_sorted<'a>(f: &mut Vec<(LowerBound, SolutionSet<'a>)>, e: (LowerBound, SolutionSet<'a>)) -> (pos: usize)
    requires
        sorted_by_bound(old(f)@),
        forall|i: int| 0 <= i < old(f)@.len() ==> (#[trigger] old(f)@[i]).0.valid(),
        e.0.valid(),
    ensures
        pos <= old(f)@.len(),
        final(f)@ == old(f)@.insert(pos as int, e),
        sorted_by_bound(final(f)@),
        forall|i: int| 0 <= i < pos ==> (#[trigger] old(f)@[i]).0.spec_le(e.0),
        forall|i: int| pos <= i < old(f)@.len() ==> !(#[trigger] old(f)@[i]).0.spec_le(e.0),
{
    let mut pos: usize = 0;
    while pos < f.len() && f[pos].0.le(&e.0)
        invariant
            pos <= f@.len(),
            forall|i: int| 0 <= i < f@.len() ==> (#[trigger] f@[i]).0.valid(),
            e.0.valid(),
            forall|i: int| 0 <= i < pos ==> (#[trigger] f@[i]).0.spec_le(e.0),
        decreases f@.len() - pos,
    {
        pos = pos + 1;
    }
    let ghost f0 = f@;
    proof {
        assert forall|i: int| pos <= i < f0.len() implies !(#[trigger] f0[i]).0.spec_le(e.0) by {
            if f0[i].0.spec_le(e.0) {
                if i > pos {
                    lemma_le_transitive(f0[pos as int].0, f0[i].0, e.0);
                }
            }
        }
    }
    f.insert(pos, e);
    proof {
        let f1 = f@;
        assert forall|i: int, j: int| 0 <= i < j < f1.len() implies (#[trigger] f1[i].0).spec_le(#[trigger] f1[j].0) by {
            if j < pos {
                assert(f1[i] == f0[i] && f1[j] == f0[j]);
            } else if j == pos {
                assert(f1[i] == f0[i]);
            } else if i < pos {
                assert(f1[i] == f0[i] && f1[j] == f0[j - 1]);
                lemma_le_total(f0[j - 1].0, e.0);
                lemma_le_transitive(f0[i].0, e.0, f0[j - 1].0);
            } else if i == pos {
                assert(f1[j] == f0[j - 1]);
                lemma_le_total(f0[j - 1].0, e.0);
            } else {
                assert(f1[i] == f0[i - 1] && f1[j] == f0[j - 1]);
            }
        }
    }
    pos
}

/// The whole node set dominates the graph.
pub proof fn lemma_all_nodes_dominate(g: UnGraph)
    ensures
        is_dominating(g, node_set(g)),
{
    assert forall|x: usize| node_set(g).contains(x) implies covered_by(g, node_set(g)).contains(x) by {
        assert(ball(g, x).contains(x));
    }
    assert(covered_by(g, node_set(g)) =~= node_set(g));
}

/// The invariant of the search on a frontier.
pub open spec fn frontier_inv(g: UnGraph, f: Seq<(LowerBound, SolutionSet)>) -> bool {
    &&& entries_ok(g, f)
    &&& sorted_by_bound(f)
    &&& forall|d: Set<usize>| #[trigger] is_dominating(g, d) ==> extends_some(f, d)
    &&& forall|i: int|
        0 <= i < f.len() && is_dominating(g, (#[trigger] f[i]).1.s_set())
            ==> is_optimal_size(g, f[i].1.s_set().len())
}

/// Every entry of a frontier keeps `S` and `T` apart.
pub proof fn lemma_frontier_partition(g: UnGraph, f: Seq<(LowerBound, SolutionSet)>)
    requires
        frontier_inv(g, f),
    ensures
        forall|i: int| 0 <= i < f.len() ==> (#[trigger] f[i]).1.s_set().disjoint(f[i].1.t_set()),
{
    assert forall|i: int| 0 <= i < f.len() implies (#[trigger] f[i]).1.s_set().disjoint(f[i].1.t_set()) by {
        assert(entries_ok(g, f) ==> f[i].1.wf());
        f[i].1.lemma_wf_facts();
    }
}

/// When adding the branch node `n` makes `S` dominate, `n` covers every
/// node left uncovered, so the bound of the parent is exactly `|S| + 1`.
proof fn lemma_dominating_child_bound(current: SolutionSet, n: usize, with_node: SolutionSet, without_node: SolutionSet)
    requires
        current.wf(),
        !is_dominating(current.graph(), current.s_set()),
        current.branch_node() == Some(n),
        is_branch_pair(current, n, with_node, without_node),
        is_dominating(current.graph(), with_node.s_set()),
    ensures
        current.bound().whole == with_node.s_set().len(),
{
    let g = current.graph();
    current.lemma_wf_facts();
    lemma_node_set_finite(g);
    lemma_covered_finite(g, current.s_set());
    lemma_coverage_monotone(g, current.s_set(), n);
    lemma_branch_node_max(g, current.s_set(), current.t_set(), Some(n));
    let c = current.covered();
    let part = ball(g, n).difference(c);
    lemma_ball_finite(g, n);
    assert(part =~= current.uncovered()) by {
        assert forall|x: usize| current.uncovered().contains(x) implies part.contains(x) by {
            assert(covered_by(g, with_node.s_set()).contains(x));
        }
    }
    assert(current.uncovered().len() > 0) by {
        if current.uncovered().len() == 0 {
            assert(current.uncovered() =~= Set::empty());
            assert(current.covered() =~= node_set(g));
        }
    }
    let u = current.uncovered().len() as int;
    assert(u / u == 1) by (nonlinear_arith)
        requires u > 0;
    assert(u % u == 0) by (nonlinear_arith)
        requires u > 0;
    assert(undecided(g, current.s_set(), current.t_set()).contains(n));
    assert(!current.s_set().contains(n));
    assert(with_node.s_set().len() == current.s_set().len() + 1);
}

/// What the search needs of the two children of the first entry of `f0`,
/// a state that does not dominate and branches on `n`.
proof fn lemma_branch_children(
    g: UnGraph,
    f0: Seq<(LowerBound, SolutionSet)>,
    n: usize,
    with_node: SolutionSet,
    without_node: SolutionSet,
)
    requires
        frontier_inv(g, f0),
        f0.len() > 0,
        !is_dominating(g, f0[0].1.s_set()),
        f0[0].1.branch_node() == Some(n),
        is_branch_pair(f0[0].1, n, with_node, without_node),
    ensures
        is_dominating(g, with_node.s_set()) ==> is_optimal_size(g, with_node.s_set().len()),
        !is_dominating(g, without_node.s_set()),
        subtree_size(f0[0].1.undecided().len()) == 1 + subtree_size(with_node.undecided().len())
            + subtree_size(without_node.undecided().len()),
{
    let current = f0[0].1;
    assert(entries_ok(g, f0) ==> f0[0].1.wf() && f0[0].1.graph() == g);
    if is_dominating(g, with_node.s_set()) {
        lemma_dominating_child_bound(current, n, with_node, without_node);
        assert forall|d: Set<usize>| #[trigger] is_dominating(g, d) implies with_node.s_set().len() <= d.len() by {
            assert(extends_some(f0, d));
            let i = choose|i: int| 0 <= i < f0.len() && extends(d, (#[trigger] f0[i]).1.s_set(), f0[i].1.t_set());
            assert(entries_ok(g, f0) ==> f0[i].1.wf() && f0[i].0 == f0[i].1.bound() && f0[i].1.graph() == g);
            lemma_admissible(f0[i].1, d);
            if i > 0 {
                assert(f0[0].0.spec_le(f0[i].0));
            }
        }
    }
    lemma_subtree_split(current, n, with_node, without_node);
}

/// Branching on an undecided node leaves one fewer undecided node in each child.
proof fn lemma_subtree_split(current: SolutionSet, n: usize, with_node: SolutionSet, without_node: SolutionSet)
    requires
        current.wf(),
        current.branch_node() == Some(n),
        is_branch_pair(current, n, with_node, without_node),
    ensures
        subtree_size(current.undecided().len()) == 1 + subtree_size(with_node.undecided().len())
            + subtree_size(without_node.undecided().len()),
{
    let g = current.graph();
    current.lemma_wf_facts();
    lemma_node_set_finite(g);
    assert(current.undecided().contains(n));
    assert(with_node.undecided() =~= current.undecided().remove(n));
    assert(without_node.undecided() =~= current.undecided().remove(n));
    vstd::set_lib::lemma_len_subset(current.undecided(), node_set(g));
    let k = current.undecided().len();
    assert(subtree_size(k) == 1 + 2 * subtree_size((k - 1) as nat));
}

/// The invariant holds again once the first entry of `f0` has been replaced
/// by its two children, inserted at `pos1` and then `pos2`.
proof fn lemma_after_branch(
    g: UnGraph,
    f0: Seq<(LowerBound, SolutionSet)>,
    f1: Seq<(LowerBound, SolutionSet)>,
    f2: Seq<(LowerBound, SolutionSet)>,
    f3: Seq<(LowerBound, SolutionSet)>,
    pos1: int,
    pos2: int,
    n: usize,
)
    requires
        frontier_inv(g, f0),
        f0.len() > 0,
        f1 == f0.drop_first(),
        0 <= pos1 <= f1.len(),
        0 <= pos2 <= f2.len(),
        f2 == f1.insert(pos1, f2[pos1]),
        f3 == f2.insert(pos2, f3[pos2]),
        sorted_by_bound(f3),
        is_branch_pair(f0[0].1, n, f2[pos1].1, f3[pos2].1),
        f2[pos1].0 == f2[pos1].1.bound(),
        f3[pos2].0 == f3[pos2].1.bound(),
        f2[pos1].0.valid(),
        f3[pos2].0.valid(),
        is_dominating(g, f2[pos1].1.s_set()) ==> is_optimal_size(g, f2[pos1].1.s_set().len()),
        !is_dominating(g, f3[pos2].1.s_set()),
    ensures
        frontier_inv(g, f3),
{
    assert forall|i: int| 0 <= i < f3.len() implies ({
        &&& (#[trigger] f3[i]).1.wf()
        &&& f3[i].1.graph() == g
        &&& f3[i].0 == f3[i].1.bound()
        &&& f3[i].0.valid()
    }) by {
        if i != pos2 {
            let i2 = if i < pos2 { i } else { i - 1 };
            assert(f3[i] == f2[i2]);
            if i2 != pos1 {
                let i1 = if i2 < pos1 { i2 } else { i2 - 1 };
                assert(f2[i2] == f1[i1]);
                assert(f1[i1] == f0[i1 + 1]);
            }
        }
    }
    assert forall|d: Set<usize>| #[trigger] is_dominating(g, d) implies extends_some(f3, d) by {
        assert(extends_some(f0, d));
        let i = choose|i: int| 0 <= i < f0.len() && extends(d, (#[trigger] f0[i]).1.s_set(), f0[i].1.t_set());
        if i == 0 {
            if d.contains(n) {
                let j = if pos1 < pos2 { pos1 } else { pos1 + 1 };
                assert(f3[j] == f2[pos1]);
                assert(extends(d, f3[j].1.s_set(), f3[j].1.t_set()));
            } else {
                assert(extends(d, f3[pos2].1.s_set(), f3[pos2].1.t_set()));
            }
        } else {
            let i1 = i - 1;
            assert(f1[i1] == f0[i]);
            let i2 = if i1 < pos1 { i1 } else { i1 + 1 };
            assert(f2[i2] == f1[i1]);
            let i3 = if i2 < pos2 { i2 } else { i2 + 1 };
            assert(f3[i3] == f2[i2]);
        }
    }
    assert forall|i: int|
        0 <= i < f3.len() && is_dominating(g, (#[trigger] f3[i]).1.s_set())
            implies is_optimal_size(g, f3[i].1.s_set().len()) by {
        if i != pos2 {
            let i2 = if i < pos2 { i } else { i - 1 };
            assert(f3[i] == f2[i2]);
            if i2 != pos1 {
                let i1 = if i2 < pos1 { i2 } else { i2 - 1 };
                assert(f2[i2] == f1[i1]);
                assert(f1[i1] == f0[i1 + 1]);
            }
        }
    }
}

/// A minimum dominating set of `g`, in increasing node order.
///
/// The search starts from the empty partial solution and repeatedly takes
/// the pending state of smallest lower bound.  A state that dominates the
/// graph is the answer; a state whose undecided nodes cannot cover anything
/// more has no dominating completion and is dropped; any other state is
/// replaced by its two children on its branch node.  The pending states
/// never run out: the set of all nodes dominates, and it extends one of them.
pub fn minimum_dominating_set(g: &UnGraph) -> (r: Vec<usize>)
    ensures
        forall|i: int, j: int| 0 <= i < j < r@.len() ==> r@[i] < r@[j],
        is_dominating(*g, list_set(r@)),
        is_optimal_size(*g, r@.len() as nat),
{
    let root = SolutionSet::new(g, Vec::new(), Vec::new());
    assert(root.s_set() =~= Set::<usize>::empty());
    assert(root.t_set() =~= Set::<usize>::empty());
    let root_bound = root.get_lower_bound();
    let mut frontier: Vec<(LowerBound, SolutionSet)> = Vec::new();
    frontier.push((root_bound, root));
    proof {
        lemma_node_set_finite(*g);
        lemma_all_nodes_dominate(*g);
        assert forall|d: Set<usize>| #[trigger] is_dominating(*g, d) implies extends_some(frontier@, d) by {
            assert(extends(d, frontier@[0].1.s_set(), frontier@[0].1.t_set()));
        }
    }
    loop
        invariant
            frontier_inv(*g, frontier@),
            is_dominating(*g, node_set(*g)),
        decreases pending(frontier@),
    {
        proof {
            assert(extends_some(frontier@, node_set(*g)));
        }
        let ghost f0 = frontier@;
        let (b, current) = frontier.remove(0);
        assert(f0[0] == (b, current));
        let ghost f1 = frontier@;
        assert(f1 =~= f0.drop_first());
        assert(entries_ok(*g, f0) ==> f0[0].1.wf() && f0[0].1.graph() == *g);
        if current.is_dominated() {
            let r = current.s_nodes();
            proof {
                crate::solution::lemma_list_len(r@);
            }
            return r;
        }
        match current.max_w_value_node() {
            None => {
                // Not dominating, yet no undecided node covers anything new:
                // no dominating set extends `current`, so it is dropped.
                proof {
                    lemma_branch_node_max(*g, current.s_set(), current.t_set(), None);
                    assert forall|d: Set<usize>| #[trigger] is_dominating(*g, d) implies extends_some(frontier@, d) by {
                        let i = choose|i: int| 0 <= i < f0.len() && extends(d, (#[trigger] f0[i]).1.s_set(), f0[i].1.t_set());
                        if i == 0 {
                            lemma_uncovered_bound(current, d);
                            lemma_covered_finite(*g, current.s_set());
                        } else {
                            assert(frontier@[i - 1] == f0[i]);
                        }
                    }
                    assert forall|i: int|
                        0 <= i < frontier@.len() && is_dominating(*g, (#[trigger] frontier@[i]).1.s_set())
                            implies is_optimal_size(*g, frontier@[i].1.s_set().len()) by {
                        assert(frontier@[i] == f0[i + 1]);
                    }
                    assert(pending(f0) == subtree_size(current.undecided().len()) + pending(f1));
                }
            },
            Some(n) => {
                let (with_node, without_node) = create_new_solutions_sets(&current, n);
                proof {
                    lemma_branch_children(*g, f0, n, with_node, without_node);
                }
                let with_bound = with_node.get_lower_bound();
                let pos1 = insert_sorted(&mut frontier, (with_bound, with_node));
                let ghost f2 = frontier@;
                let without_bound = without_node.get_lower_bound();
                let pos2 = insert_sorted(&mut frontier, (without_bound, without_node));
                proof {
                    lemma_pending_insert(f1, pos1 as int, (with_bound, with_node));
                    lemma_pending_insert(f2, pos2 as int, (without_bound, without_node));
                    lemma_after_branch(*g, f0, f1, f2, frontier@, pos1 as int, pos2 as int, n);
                }
            },
        }
    }
}

} // verus!
