//! Partial solutions: a split of the nodes into chosen dominators `S`,
//! rejected nodes `T` and the undecided rest, with the coverage potential of
//! every undecided node and a lower bound on every completion.
use crate::bound::{lemma_at_most_whole, LowerBound};
use crate::graph::{
    ball, get_ball, graph_node_count, lemma_node_set_finite, node_count, node_set, UnGraph,
};
use vstd::prelude::*;

verus! {

/// The nodes covered by a set of dominators: the union of their closed
/// neighbourhoods.
pub open spec fn covered_by(g: UnGraph, s: Set<usize>) -> Set<usize> {
    Set::new(|x: usize| x < graph_node_count(g) && exists|d: usize| s.contains(d) && #[trigger] ball(g, d).contains(x))
}

/// The nodes that no dominator of `s` covers.
pub open spec fn uncovered_by(g: UnGraph, s: Set<usize>) -> Set<usize> {
    node_set(g).difference(covered_by(g, s))
}

/// How many nodes not yet covered by `s` the node `a` would cover.
pub open spec fn potential(g: UnGraph, s: Set<usize>, a: usize) -> nat {
    ball(g, a).difference(covered_by(g, s)).len()
}

/// The nodes in neither `s` nor `t`.
pub open spec fn undecided(g: UnGraph, s: Set<usize>, t: Set<usize>) -> Set<usize> {
    node_set(g).difference(s).difference(t)
}

/// `d` is a set of nodes that dominates the whole graph.
pub open spec fn is_dominating(g: UnGraph, d: Set<usize>) -> bool {
    d.subset_of(node_set(g)) && covered_by(g, d) == node_set(g)
}

/// `d` keeps every choice made by `(s, t)`: it holds `s` and nothing of `t`.
pub open spec fn extends(d: Set<usize>, s: Set<usize>, t: Set<usize>) -> bool {
    s.subset_of(d) && d.disjoint(t)
}

/// `m` is the largest potential of an undecided node, or 0 when there is none.
pub open spec fn is_max_potential(g: UnGraph, s: Set<usize>, t: Set<usize>, m: nat) -> bool {
    &&& forall|k: usize| #[trigger] undecided(g, s, t).contains(k) ==> potential(g, s, k) <= m
    &&& (m == 0 || exists|k: usize| #[trigger] undecided(g, s, t).contains(k) && potential(g, s, k) == m)
}

/// The largest potential of an undecided node, or 0 when there is none.
pub open spec fn max_potential(g: UnGraph, s: Set<usize>, t: Set<usize>) -> nat {
    choose|m: nat| is_max_potential(g, s, t, m)
}

/// The node to branch on: the first undecided node of largest positive
/// potential, or none when every undecided node has potential 0.
pub open spec fn is_branch_node(g: UnGraph, s: Set<usize>, t: Set<usize>, r: Option<usize>) -> bool {
    match r {
        None => forall|k: usize| #[trigger] undecided(g, s, t).contains(k) ==> potential(g, s, k) == 0,
        Some(m) => {
            &&& undecided(g, s, t).contains(m)
            &&& potential(g, s, m) > 0
            &&& forall|k: usize| #[trigger] undecided(g, s, t).contains(k) ==> potential(g, s, k) <= potential(g, s, m)
            &&& forall|k: usize| #[trigger] undecided(g, s, t).contains(k) && k < m ==> potential(g, s, k) < potential(g, s, m)
        },
    }
}

/// The nodes marked in a membership mask.
pub open spec fn mask_set(m: Seq<bool>) -> Set<usize> {
    Set::new(|i: usize| (i as int) < m.len() && m[i as int])
}

/// The nodes listed in a sequence.
pub open spec fn list_set(l: Seq<usize>) -> Set<usize> {
    Set::new(|i: usize| l.contains(i))
}

/// The covered set lies within the node set.
pub proof fn lemma_covered_finite(g: UnGraph, s: Set<usize>)
    ensures
        covered_by(g, s).subset_of(node_set(g)),
        covered_by(g, s).finite(),
        uncovered_by(g, s).finite(),
        covered_by(g, s).len() + uncovered_by(g, s).len() == graph_node_count(g),
{
    lemma_node_set_finite(g);
    vstd::set_lib::lemma_len_subset(covered_by(g, s), node_set(g));
    assert(node_set(g) =~= covered_by(g, s).union(uncovered_by(g, s)));
    assert(covered_by(g, s).disjoint(uncovered_by(g, s)));
    vstd::set_lib::lemma_set_disjoint_lens(covered_by(g, s), uncovered_by(g, s));
}

/// A closed neighbourhood lies within the node set.
pub proof fn lemma_ball_finite(g: UnGraph, a: usize)
    ensures
        ball(g, a).subset_of(node_set(g)),
        ball(g, a).finite(),
        ball(g, a).len() <= graph_node_count(g),
{
    lemma_node_set_finite(g);
    vstd::set_lib::lemma_len_subset(ball(g, a), node_set(g));
}

/// A mask of `n` entries, all unset.
fn false_mask(n: usize) -> (r: Vec<bool>)
    ensures
        r@.len() == n,
        forall|i: int| 0 <= i < n ==> !r@[i],
{
    let mut r: Vec<bool> = Vec::new();
    let mut k: usize = 0;
    while k < n
        invariant
            k <= n,
            r@.len() == k,
            forall|i: int| 0 <= i < k ==> !r@[i],
        decreases n - k,
    {
        r.push(false);
        k = k + 1;
    }
    r
}

/// The covered set of the dominators marked in `s`, as a mask.
fn covered_mask(g: &UnGraph, s: &Vec<bool>) -> (r: Vec<bool>)
    requires
        s@.len() == graph_node_count(*g),
    ensures
        r@.len() == graph_node_count(*g),
        forall|x: usize| x < graph_node_count(*g) ==> (r@[x as int] <==> covered_by(*g, mask_set(s@)).contains(x)),
{
    let n = node_count(g);
    let mut cov = false_mask(n);
    let mut i: usize = 0;
    while i < n
        invariant
            n == graph_node_count(*g),
            s@.len() == n,
            i <= n,
            cov@.len() == n,
            forall|x: usize|
                x < n ==> (cov@[x as int] <==> exists|d: usize| d < i && s@[d as int] && #[trigger] ball(*g, d).contains(x)),
        decreases n - i,
    {
        if s[i] {
            let b = get_ball(g, i);
            let mut k: usize = 0;
            while k < b.len()
                invariant
                    n == graph_node_count(*g),
                    s@.len() == n,
                    i < n,
                    s@[i as int],
                    cov@.len() == n,
                    k <= b@.len(),
                    forall|x: usize| b@.contains(x) <==> ball(*g, i).contains(x),
                    forall|x: usize|
                        x < n ==> (cov@[x as int] <==> ((exists|d: usize| d < i && s@[d as int] && #[trigger] ball(*g, d).contains(x))
                            || b@.subrange(0, k as int).contains(x))),
                decreases b@.len() - k,
            {
                let y = b[k];
                assert(b@.contains(y));
                let ghost old_cov = cov@;
                cov.set(y, true);
                assert forall|x: usize| x < n implies (cov@[x as int] <==> ((exists|d: usize| d < i && s@[d as int] && #[trigger] ball(*g, d).contains(x))
                    || b@.subrange(0, k as int + 1).contains(x))) by {
                    let s0 = b@.subrange(0, k as int);
                    let s1 = b@.subrange(0, k as int + 1);
                    if s1.contains(x) {
                        let j = choose|j: int| 0 <= j < s1.len() && s1[j] == x;
                        if j < k {
                            assert(s0[j] == x);
                        }
                    }
                    if s0.contains(x) {
                        let j = choose|j: int| 0 <= j < s0.len() && s0[j] == x;
                        assert(s1[j] == x);
                    }
                    if x == y {
                        assert(s1[k as int] == x);
                    }
                }
                k = k + 1;
            }
            assert(b@.subrange(0, b@.len() as int) =~= b@);
            assert forall|x: usize| x < n implies (cov@[x as int] <==> exists|d: usize| d < i + 1 && s@[d as int] && #[trigger] ball(*g, d).contains(x)) by {
                if ball(*g, i).contains(x) {
                    assert(b@.contains(x));
                }
            }
        } else {
            assert forall|x: usize| x < n implies (cov@[x as int] <==> exists|d: usize| d < i + 1 && s@[d as int] && #[trigger] ball(*g, d).contains(x)) by {
                if exists|d: usize| d < i + 1 && s@[d as int] && #[trigger] ball(*g, d).contains(x) {
                    let d = choose|d: usize| d < i + 1 && s@[d as int] && #[trigger] ball(*g, d).contains(x);
                    assert(d != i);
                }
            }
        }
        i = i + 1;
    }
    assert forall|x: usize| x < n implies (cov@[x as int] <==> covered_by(*g, mask_set(s@)).contains(x)) by {
        if covered_by(*g, mask_set(s@)).contains(x) {
            let d = choose|d: usize| mask_set(s@).contains(d) && #[trigger] ball(*g, d).contains(x);
            assert(d < n && s@[d as int]);
        }
        if cov@[x as int] {
            let d = choose|d: usize| d < i && s@[d as int] && #[trigger] ball(*g, d).contains(x);
            assert(mask_set(s@).contains(d));
        }
    }
    cov
}

/// The potential of `a` against the covered mask `cov` of the dominators `s`.
fn count_uncovered_in_ball(g: &UnGraph, s: Ghost<Set<usize>>, cov: &Vec<bool>, a: usize) -> (r: usize)
    requires
        a < graph_node_count(*g),
        cov@.len() == graph_node_count(*g),
        forall|x: usize| x < graph_node_count(*g) ==> (cov@[x as int] <==> covered_by(*g, s@).contains(x)),
    ensures
        r == potential(*g, s@, a),
{
    let ghost n = graph_node_count(*g);
    let ghost c = covered_by(*g, s@);
    let b = get_ball(g, a);
    proof {
        lemma_node_set_finite(*g);
        lemma_ball_finite(*g, a);
    }
    let mut cnt: usize = 0;
    let mut k: usize = 0;
    let ghost mut seen: Set<usize> = Set::empty();
    assert(seen.difference(c) =~= Set::empty());
    while k < b.len()
        invariant
            n == graph_node_count(*g),
            cov@.len() == n,
            forall|x: usize| x < n ==> (cov@[x as int] <==> c.contains(x)),
            b@.no_duplicates(),
            forall|x: usize| b@.contains(x) <==> ball(*g, a).contains(x),
            ball(*g, a).subset_of(node_set(*g)),
            node_set(*g).finite(),
            node_set(*g).len() == n,
            k <= b@.len(),
            seen.finite(),
            seen.subset_of(node_set(*g)),
            forall|x: usize| seen.contains(x) <==> exists|j: int| 0 <= j < k && b@[j] == x,
            cnt == seen.difference(c).len(),
        decreases b@.len() - k,
    {
        let y = b[k];
        assert(b@.contains(y));
        assert(!seen.contains(y)) by {
            if seen.contains(y) {
                let j = choose|j: int| 0 <= j < k && b@[j] == y;
                assert(b@[k as int] == y);
            }
        }
        let ghost seen2 = seen.insert(y);
        assert(seen2.subset_of(node_set(*g)));
        proof {
            vstd::set_lib::lemma_len_subset(seen2.difference(c), node_set(*g));
        }
        if !cov[y] {
            assert(seen2.difference(c) =~= seen.difference(c).insert(y));
            cnt = cnt + 1;
        } else {
            assert(seen2.difference(c) =~= seen.difference(c));
        }
        proof {
            seen = seen2;
        }
        assert forall|x: usize| seen.contains(x) <==> exists|j: int| 0 <= j < k + 1 && b@[j] == x by {
            if x == y {
                assert(b@[k as int] == x);
            }
        }
        k = k + 1;
    }
    assert(seen =~= ball(*g, a)) by {
        assert forall|x: usize| seen.contains(x) <==> ball(*g, a).contains(x) by {
            if ball(*g, a).contains(x) {
                assert(b@.contains(x));
                let j = choose|j: int| 0 <= j < b@.len() && b@[j] == x;
            }
            if seen.contains(x) {
                let j = choose|j: int| 0 <= j < k && b@[j] == x;
                assert(b@.contains(x));
            }
        }
    }
    cnt
}

/// The value satisfying `is_max_potential` is unique, so it is `max_potential`.
pub proof fn lemma_max_potential_unique(g: UnGraph, s: Set<usize>, t: Set<usize>, m: nat)
    requires
        is_max_potential(g, s, t, m),
    ensures
        max_potential(g, s, t) == m,
{
    let c = max_potential(g, s, t);
    assert(is_max_potential(g, s, t, c));
    if c != m {
        if m != 0 {
            let k = choose|k: usize| #[trigger] undecided(g, s, t).contains(k) && potential(g, s, k) == m;
            assert(potential(g, s, k) <= c);
        }
        if c != 0 {
            let k = choose|k: usize| #[trigger] undecided(g, s, t).contains(k) && potential(g, s, k) == c;
            assert(potential(g, s, k) <= m);
        }
    }
}

/// The branch node's potential is the largest potential.
pub proof fn lemma_branch_node_max(g: UnGraph, s: Set<usize>, t: Set<usize>, r: Option<usize>)
    requires
        is_branch_node(g, s, t, r),
    ensures
        max_potential(g, s, t) == match r {
            Some(m) => potential(g, s, m),
            None => 0,
        },
{
    match r {
        Some(m) => lemma_max_potential_unique(g, s, t, potential(g, s, m)),
        None => lemma_max_potential_unique(g, s, t, 0),
    }
}

/// The nodes `x` with `m[x] == want`, in increasing order.
fn mask_to_list(m: &Vec<bool>, want: bool) -> (r: Vec<usize>)
    ensures
        forall|i: int, j: int| 0 <= i < j < r@.len() ==> r@[i] < r@[j],
        forall|x: usize| r@.contains(x) <==> ((x as int) < m@.len() && m@[x as int] == want),
{
    let mut r: Vec<usize> = Vec::new();
    let mut i: usize = 0;
    while i < m.len()
        invariant
            i <= m@.len(),
            forall|a: int, b: int| 0 <= a < b < r@.len() ==> r@[a] < r@[b],
            forall|a: int| 0 <= a < r@.len() ==> r@[a] < i,
            forall|x: usize| r@.contains(x) <==> (x < i && m@[x as int] == want),
        decreases m@.len() - i,
    {
        let ghost r0 = r@;
        if m[i] == want {
            r.push(i);
            assert forall|x: usize| r@.contains(x) <==> (r0.contains(x) || x == i) by {
                if r@.contains(x) {
                    let a = choose|a: int| 0 <= a < r@.len() && r@[a] == x;
                    if a < r0.len() {
                        assert(r0[a] == x);
                    }
                }
                if r0.contains(x) {
                    let a = choose|a: int| 0 <= a < r0.len() && r0[a] == x;
                    assert(r@[a] == x);
                }
                if x == i {
                    assert(r@[r0.len() as int] == x);
                }
            }
        }
        i = i + 1;
    }
    r
}

/// A snapshot of the search: chosen dominators `S`, rejected nodes `T`, the
/// potential of each undecided node, and the node to branch on next.  It is
/// built once and never changed.
#[derive(Debug)]
pub struct SolutionSet<'a> {
    g: &'a UnGraph,
    s: Vec<bool>,
    t: Vec<bool>,
    w: Vec<Option<usize>>,
    max_w_value_node: Option<usize>,
}

impl<'a> SolutionSet<'a> {
    /// The graph of this partial solution.
    pub closed spec fn graph(&self) -> UnGraph {
        *self.g
    }

    /// The chosen dominators `S`.
    pub closed spec fn s_set(&self) -> Set<usize> {
        mask_set(self.s@)
    }

    /// The rejected nodes `T`.
    pub closed spec fn t_set(&self) -> Set<usize> {
        mask_set(self.t@)
    }

    /// The potentials, by node: `None` for a decided node.
    pub closed spec fn w_seq(&self) -> Seq<Option<usize>> {
        self.w@
    }

    /// Both partial solutions hold the same graph, masks, potentials and
    /// branch node.
    pub closed spec fn same_state(&self, o: SolutionSet) -> bool {
        &&& *self.g == *o.g
        &&& self.s@ == o.s@
        &&& self.t@ == o.t@
        &&& self.w@ == o.w@
        &&& self.max_w_value_node == o.max_w_value_node
    }

    /// A partial solution is determined by its graph, `S` and `T`.
    pub proof fn lemma_determined(&self, o: SolutionSet)
        requires
            self.wf(),
            o.wf(),
            self.graph() == o.graph(),
            self.s_set() == o.s_set(),
            self.t_set() == o.t_set(),
        ensures
            self.same_state(o),
    {
        let n = graph_node_count(*self.g);
        assert forall|i: int| 0 <= i < n implies self.s@[i] == o.s@[i] by {
            let x = i as usize;
            assert(x as int == i);
            assert(mask_set(self.s@).contains(x) == self.s@[i]);
            assert(mask_set(o.s@).contains(x) == o.s@[i]);
        }
        assert forall|i: int| 0 <= i < n implies self.t@[i] == o.t@[i] by {
            let x = i as usize;
            assert(x as int == i);
            assert(mask_set(self.t@).contains(x) == self.t@[i]);
            assert(mask_set(o.t@).contains(x) == o.t@[i]);
        }
        assert(self.s@ =~= o.s@);
        assert(self.t@ =~= o.t@);
        assert forall|i: int| 0 <= i < n implies self.w@[i] == o.w@[i] by {
            assert(self.w@[(i as usize) as int] == o.w@[(i as usize) as int]);
        }
        assert(self.w@ =~= o.w@);
        lemma_branch_node_unique(*self.g, self.s_set(), self.t_set(), self.max_w_value_node, o.max_w_value_node);
    }

    /// The node the search branches on next, if any.
    pub closed spec fn branch_node(&self) -> Option<usize> {
        self.max_w_value_node
    }

    /// `S` and `T` are disjoint sets of nodes, every undecided node carries
    /// its potential, and the branch node is the first of largest positive
    /// potential.
    pub closed spec fn wf(&self) -> bool {
        let n = graph_node_count(*self.g);
        &&& self.s@.len() == n
        &&& self.t@.len() == n
        &&& self.w@.len() == n
        &&& forall|i: int| 0 <= i < n ==> !(self.s@[i] && self.t@[i])
        &&& forall|i: usize|
            i < n ==> #[trigger] self.w@[i as int] == (if self.s@[i as int] || self.t@[i as int] {
                None
            } else {
                Some(potential(*self.g, mask_set(self.s@), i) as usize)
            })
        &&& is_branch_node(*self.g, mask_set(self.s@), mask_set(self.t@), self.max_w_value_node)
    }

    /// The nodes covered by `S`.
    pub open spec fn covered(&self) -> Set<usize> {
        covered_by(self.graph(), self.s_set())
    }

    /// The nodes not covered by `S`.
    pub open spec fn uncovered(&self) -> Set<usize> {
        uncovered_by(self.graph(), self.s_set())
    }

    /// The nodes in neither `S` nor `T`.
    pub open spec fn undecided(&self) -> Set<usize> {
        undecided(self.graph(), self.s_set(), self.t_set())
    }

    /// The potential of `a`: how many uncovered nodes it would cover.
    pub open spec fn w_value(&self, a: usize) -> nat {
        potential(self.graph(), self.s_set(), a)
    }

    /// The largest potential of an undecided node, 0 if there is none.
    pub open spec fn max_w(&self) -> nat {
        max_potential(self.graph(), self.s_set(), self.t_set())
    }

    /// The lower bound: 0 when no undecided node has a positive potential,
    /// else `|S| + |uncovered| / max_w`.
    pub open spec fn bound(&self) -> LowerBound {
        let m = self.max_w();
        let u = self.uncovered().len();
        if m == 0 {
            LowerBound { whole: 0, numer: 0, denom: 1 }
        } else {
            LowerBound {
                whole: (self.s_set().len() + u / m) as usize,
                numer: (u % m) as usize,
                denom: m as usize,
            }
        }
    }

    /// What well-formedness gives: `S` and `T` are disjoint finite sets of
    /// nodes, every dominator covers itself, and the branch node is chosen
    /// as `is_branch_node` says.
    pub proof fn lemma_wf_facts(&self)
        requires
            self.wf(),
        ensures
            is_branch_node(self.graph(), self.s_set(), self.t_set(), self.branch_node()),
            self.s_set().disjoint(self.t_set()),
            self.s_set().subset_of(self.covered()),
            self.s_set().subset_of(node_set(self.graph())),
            self.t_set().subset_of(node_set(self.graph())),
            self.s_set().finite(),
            self.t_set().finite(),
            self.s_set().len() + self.uncovered().len() <= graph_node_count(self.graph()),
    {
        let g = self.graph();
        lemma_node_set_finite(g);
        lemma_covered_finite(g, self.s_set());
        assert forall|x: usize| self.s_set().contains(x) implies self.covered().contains(x) by {
            assert(ball(g, x).contains(x));
        }
        vstd::set_lib::lemma_len_subset(self.s_set(), self.covered());
        vstd::set_lib::lemma_len_subset(self.t_set(), node_set(g));
    }

    /// Builds the snapshot of `(S, T)` given as masks.
    fn from_masks(g: &'a UnGraph, s: Vec<bool>, t: Vec<bool>) -> (r: SolutionSet<'a>)
        requires
            s@.len() == graph_node_count(*g),
            t@.len() == graph_node_count(*g),
            forall|i: int| 0 <= i < s@.len() ==> !(s@[i] && t@[i]),
        ensures
            r.wf(),
            r.graph() == *g,
            r.s_set() == mask_set(s@),
            r.t_set() == mask_set(t@),
    {
        let mut ss = SolutionSet { g, s, t, w: Vec::new(), max_w_value_node: None };
        ss.update_w_values();
        ss
    }

    /// Computes the potential of every undecided node and the branch node.
    fn update_w_values(&mut self)
        requires
            old(self).s@.len() == graph_node_count(*old(self).g),
            old(self).t@.len() == graph_node_count(*old(self).g),
            forall|i: int| 0 <= i < old(self).s@.len() ==> !(old(self).s@[i] && old(self).t@[i]),
        ensures
            final(self).wf(),
            final(self).g == old(self).g,
            final(self).s@ == old(self).s@,
            final(self).t@ == old(self).t@,
    {
        let g = self.g;
        let n = node_count(g);
        let cov = covered_mask(g, &self.s);
        let ghost ss = mask_set(self.s@);
        let ghost ts = mask_set(self.t@);
        let mut w: Vec<Option<usize>> = Vec::new();
        let mut best: Option<usize> = None;
        let mut cur: usize = 0;
        let mut i: usize = 0;
        proof {
            lemma_node_set_finite(*g);
        }
        while i < n
            invariant
                n == graph_node_count(*g),
                self.g == g,
                self.s@.len() == n,
                self.t@.len() == n,
                ss == mask_set(self.s@),
                ts == mask_set(self.t@),
                cov@.len() == n,
                forall|x: usize| x < n ==> (cov@[x as int] <==> covered_by(*g, ss).contains(x)),
                i <= n,
                w@.len() == i,
                forall|k: usize|
                    k < i ==> #[trigger] w@[k as int] == (if self.s@[k as int] || self.t@[k as int] {
                        None
                    } else {
                        Some(potential(*g, ss, k) as usize)
                    }),
                forall|k: usize| #[trigger] undecided(*g, ss, ts).contains(k) && k < i ==> potential(*g, ss, k) <= cur,
                match best {
                    None => cur == 0,
                    Some(m) => {
                        &&& m < i
                        &&& undecided(*g, ss, ts).contains(m)
                        &&& potential(*g, ss, m) == cur
                        &&& cur > 0
                        &&& forall|k: usize| #[trigger] undecided(*g, ss, ts).contains(k) && k < m ==> potential(*g, ss, k) < cur
                    },
                },
            decreases n - i,
        {
            if self.s[i] || self.t[i] {
                w.push(None);
                assert(!undecided(*g, ss, ts).contains(i));
            } else {
                let p = count_uncovered_in_ball(g, Ghost(ss), &cov, i);
                w.push(Some(p));
                assert(undecided(*g, ss, ts).contains(i));
                if p > cur {
                    best = Some(i);
                    cur = p;
                }
            }
            assert forall|k: usize| k < i + 1 implies #[trigger] w@[k as int] == (if self.s@[k as int] || self.t@[k as int] {
                None
            } else {
                Some(potential(*g, ss, k) as usize)
            }) by {}
            i = i + 1;
        }
        self.w = w;
        self.max_w_value_node = best;
        assert forall|k: usize| #[trigger] undecided(*g, ss, ts).contains(k) implies k < n by {}
    }

    /// Builds the partial solution with dominators `s` and rejected nodes `t`,
    /// each given as a list of nodes.
    pub fn new(g: &'a UnGraph, s: Vec<usize>, t: Vec<usize>) -> (r: SolutionSet<'a>)
        requires
            forall|i: int| 0 <= i < s@.len() ==> s@[i] < graph_node_count(*g),
            forall|i: int| 0 <= i < t@.len() ==> t@[i] < graph_node_count(*g),
            list_set(s@).disjoint(list_set(t@)),
        ensures
            r.wf(),
            r.graph() == *g,
            r.s_set() == list_set(s@),
            r.t_set() == list_set(t@),
    {
        let n = node_count(g);
        let mut sm = false_mask(n);
        let mut tm = false_mask(n);
        let mut i: usize = 0;
        while i < s.len()
            invariant
                n == graph_node_count(*g),
                sm@.len() == n,
                i <= s@.len(),
                forall|k: int| 0 <= k < s@.len() ==> s@[k] < n,
                forall|x: usize| x < n ==> (sm@[x as int] <==> s@.subrange(0, i as int).contains(x)),
            decreases s@.len() - i,
        {
            let x = s[i];
            sm.set(x, true);
            assert forall|y: usize| y < n implies (sm@[y as int] <==> s@.subrange(0, i as int + 1).contains(y)) by {
                let s0 = s@.subrange(0, i as int);
                let s1 = s@.subrange(0, i as int + 1);
                if s1.contains(y) {
                    let j = choose|j: int| 0 <= j < s1.len() && s1[j] == y;
                    if j < i {
                        assert(s0[j] == y);
                    }
                }
                if s0.contains(y) {
                    let j = choose|j: int| 0 <= j < s0.len() && s0[j] == y;
                    assert(s1[j] == y);
                }
                if y == x {
                    assert(s1[i as int] == y);
                }
            }
            i = i + 1;
        }
        assert(s@.subrange(0, s@.len() as int) =~= s@);
        let mut i: usize = 0;
        while i < t.len()
            invariant
                n == graph_node_count(*g),
                tm@.len() == n,
                i <= t@.len(),
                forall|k: int| 0 <= k < t@.len() ==> t@[k] < n,
                forall|x: usize| x < n ==> (tm@[x as int] <==> t@.subrange(0, i as int).contains(x)),
            decreases t@.len() - i,
        {
            let x = t[i];
            tm.set(x, true);
            assert forall|y: usize| y < n implies (tm@[y as int] <==> t@.subrange(0, i as int + 1).contains(y)) by {
                let s0 = t@.subrange(0, i as int);
                let s1 = t@.subrange(0, i as int + 1);
                if s1.contains(y) {
                    let j = choose|j: int| 0 <= j < s1.len() && s1[j] == y;
                    if j < i {
                        assert(s0[j] == y);
                    }
                }
                if s0.contains(y) {
                    let j = choose|j: int| 0 <= j < s0.len() && s0[j] == y;
                    assert(s1[j] == y);
                }
                if y == x {
                    assert(s1[i as int] == y);
                }
            }
            i = i + 1;
        }
        assert(t@.subrange(0, t@.len() as int) =~= t@);
        assert forall|k: int| 0 <= k < sm@.len() implies !(sm@[k] && tm@[k]) by {
            let x = k as usize;
            if sm@[k] && tm@[k] {
                assert(list_set(s@).contains(x));
                assert(list_set(t@).contains(x));
            }
        }
        let r = SolutionSet::from_masks(g, sm, tm);
        assert(r.s_set() =~= list_set(s@)) by {
            assert forall|x: usize| list_set(s@).contains(x) implies x < n by {
                let j = choose|j: int| 0 <= j < s@.len() && s@[j] == x;
            }
        }
        assert(r.t_set() =~= list_set(t@)) by {
            assert forall|x: usize| list_set(t@).contains(x) implies x < n by {
                let j = choose|j: int| 0 <= j < t@.len() && t@[j] == x;
            }
        }
        r
    }

    /// The nodes covered by `S`, in increasing order.
    pub fn get_covered_nodes(&self) -> (r: Vec<usize>)
        requires
            self.wf(),
        ensures
            forall|i: int, j: int| 0 <= i < j < r@.len() ==> r@[i] < r@[j],
            list_set(r@) == self.covered(),
    {
        let cov = covered_mask(self.g, &self.s);
        let r = mask_to_list(&cov, true);
        assert(list_set(r@) =~= self.covered());
        r
    }

    /// The nodes not covered by `S`, in increasing order.
    pub fn get_uncovered_nodes(&self) -> (r: Vec<usize>)
        requires
            self.wf(),
        ensures
            forall|i: int, j: int| 0 <= i < j < r@.len() ==> r@[i] < r@[j],
            list_set(r@) == self.uncovered(),
    {
        let cov = covered_mask(self.g, &self.s);
        let r = mask_to_list(&cov, false);
        assert(list_set(r@) =~= self.uncovered());
        r
    }

    /// The potential of node `a`: how many uncovered nodes it would cover.
    pub fn get_w_value(&self, a: usize) -> (r: usize)
        requires
            self.wf(),
            a < graph_node_count(self.graph()),
        ensures
            r == self.w_value(a),
    {
        let cov = covered_mask(self.g, &self.s);
        count_uncovered_in_ball(self.g, Ghost(self.s_set()), &cov, a)
    }

    /// The largest potential of an undecided node, 0 if there is none.
    pub fn get_max_w_value(&self) -> (r: usize)
        requires
            self.wf(),
        ensures
            r == self.max_w(),
    {
        proof {
            lemma_branch_node_max(self.graph(), self.s_set(), self.t_set(), self.max_w_value_node);
            if let Some(m) = self.max_w_value_node {
                lemma_ball_finite(self.graph(), m);
                vstd::set_lib::lemma_len_difference(ball(self.graph(), m), self.covered());
                assert(self.w@[m as int] == Some(potential(*self.g, mask_set(self.s@), m) as usize));
            }
        }
        match self.max_w_value_node {
            Some(m) => match self.w[m] {
                Some(v) => v,
                None => 0,
            },
            None => 0,
        }
    }

    /// The node the search branches on next: the first undecided node of
    /// largest positive potential, if there is one.
    pub fn max_w_value_node(&self) -> (r: Option<usize>)
        requires
            self.wf(),
        ensures
            r == self.branch_node(),
            is_branch_node(self.graph(), self.s_set(), self.t_set(), r),
    {
        self.max_w_value_node
    }

    /// The lower bound on the size of every dominating set that extends this
    /// partial solution.
    pub fn get_lower_bound(&self) -> (r: LowerBound)
        requires
            self.wf(),
        ensures
            r == self.bound(),
            r.valid(),
    {
        let m = self.get_max_w_value();
        if m == 0 {
            LowerBound { whole: 0, numer: 0, denom: 1 }
        } else {
            let u = self.get_uncovered_nodes();
            let mut cnt: usize = 0;
            let mut i: usize = 0;
            assert(mask_set(self.s@.subrange(0, 0)) =~= Set::empty());
            while i < self.s.len()
                invariant
                    i <= self.s@.len(),
                    cnt <= i,
                    cnt == mask_set(self.s@.subrange(0, i as int)).len(),
                    mask_set(self.s@.subrange(0, i as int)).finite(),
                decreases self.s@.len() - i,
            {
                let ghost a = mask_set(self.s@.subrange(0, i as int));
                let ghost b = mask_set(self.s@.subrange(0, i as int + 1));
                if self.s[i] {
                    assert(b =~= a.insert(i));
                    cnt = cnt + 1;
                } else {
                    assert(b =~= a);
                }
                i = i + 1;
            }
            proof {
                assert(self.s@.subrange(0, self.s@.len() as int) =~= self.s@);
                self.lemma_wf_facts();
                lemma_list_len(u@);
            }
            let ul = u.len();
            LowerBound { whole: cnt + ul / m, numer: ul % m, denom: m }
        }
    }

    /// Whether `S` covers every node, that is, dominates the graph.
    pub fn is_dominated(&self) -> (r: bool)
        requires
            self.wf(),
        ensures
            r == (self.uncovered().len() == 0),
            r == is_dominating(self.graph(), self.s_set()),
    {
        let u = self.get_uncovered_nodes();
        proof {
            self.lemma_wf_facts();
            lemma_list_len(u@);
            if u.len() == 0 {
                assert forall|x: usize| node_set(self.graph()).contains(x) implies self.covered().contains(x) by {
                    if !self.covered().contains(x) {
                        assert(self.uncovered().contains(x));
                        assert(list_set(u@).contains(x));
                        assert(u@.contains(x));
                    }
                }
                assert(self.covered() =~= node_set(self.graph()));
            } else {
                assert(self.uncovered().contains(u@[0]));
            }
        }
        u.len() == 0
    }

    /// The closed neighbourhood of `a` in this partial solution's graph.
    pub fn get_ball(&self, a: usize) -> (r: Vec<usize>)
        requires
            a < graph_node_count(self.graph()),
        ensures
            r@.no_duplicates(),
            list_set(r@) == ball(self.graph(), a),
    {
        let r = get_ball(self.g, a);
        assert(list_set(r@) =~= ball(self.graph(), a));
        r
    }

    /// The chosen dominators `S`, in increasing order.
    pub fn s_nodes(&self) -> (r: Vec<usize>)
        requires
            self.wf(),
        ensures
            forall|i: int, j: int| 0 <= i < j < r@.len() ==> r@[i] < r@[j],
            list_set(r@) == self.s_set(),
    {
        let r = mask_to_list(&self.s, true);
        assert(list_set(r@) =~= self.s_set());
        r
    }

    /// The rejected nodes `T`, in increasing order.
    pub fn t_nodes(&self) -> (r: Vec<usize>)
        requires
            self.wf(),
        ensures
            forall|i: int, j: int| 0 <= i < j < r@.len() ==> r@[i] < r@[j],
            list_set(r@) == self.t_set(),
    {
        let r = mask_to_list(&self.t, true);
        assert(list_set(r@) =~= self.t_set());
        r
    }

    /// The potential recorded for node `a`: `None` for a node of `S` or `T`.
    pub fn w_entry(&self, a: usize) -> (r: Option<usize>)
        requires
            self.wf(),
            a < graph_node_count(self.graph()),
        ensures
            r == self.w_seq()[a as int],
            r == (if self.undecided().contains(a) {
                Some(self.w_value(a) as usize)
            } else {
                None
            }),
    {
        self.w[a]
    }
}

/// A strictly increasing list has as many elements as the set it lists.
pub proof fn lemma_list_len(l: Seq<usize>)
    requires
        forall|i: int, j: int| 0 <= i < j < l.len() ==> l[i] < l[j],
    ensures
        list_set(l).finite(),
        list_set(l).len() == l.len(),
    decreases l.len(),
{
    if l.len() == 0 {
        assert(list_set(l) =~= Set::empty());
    } else {
        let p = l.drop_last();
        lemma_list_len(p);
        assert forall|x: usize| l.contains(x) <==> (p.contains(x) || x == l.last()) by {
            if l.contains(x) {
                let j = choose|j: int| 0 <= j < l.len() && l[j] == x;
                if j < p.len() {
                    assert(p[j] == x);
                }
            }
            if p.contains(x) {
                let j = choose|j: int| 0 <= j < p.len() && p[j] == x;
                assert(l[j] == x);
            }
            if x == l.last() {
                assert(l[l.len() - 1] == x);
            }
        }
        assert(list_set(l) =~= list_set(p).insert(l.last()));
        assert(!list_set(p).contains(l.last())) by {
            if list_set(p).contains(l.last()) {
                let j = choose|j: int| 0 <= j < p.len() && p[j] == l.last();
                assert(l[j] < l[l.len() - 1]);
            }
        }
    }
}


/// The two children of `ss` on the undecided node `a`: the first adds `a` to
/// `S`, the second adds it to `T`.  Both are built afresh.
pub fn create_new_solutions_sets<'b>(ss: &SolutionSet<'b>, a: usize) -> (r: (SolutionSet<'b>, SolutionSet<'b>))
    requires
        ss.wf(),
        ss.undecided().contains(a),
    ensures
        is_branch_pair(*ss, a, r.0, r.1),
{
    let mut s_with = ss.s.clone();
    let t_with = ss.t.clone();
    assert(s_with@ == ss.s@ && t_with@ == ss.t@);
    s_with.set(a, true);
    let ss_with = SolutionSet::from_masks(ss.g, s_with, t_with);
    assert(ss_with.s_set() =~= ss.s_set().insert(a));

    let s_without = ss.s.clone();
    let mut t_without = ss.t.clone();
    t_without.set(a, true);
    let ss_without = SolutionSet::from_masks(ss.g, s_without, t_without);
    assert(ss_without.t_set() =~= ss.t_set().insert(a));
    (ss_with, ss_without)
}

/// `with` and `without` are the children of `ss` on node `a`.
pub open spec fn is_branch_pair(ss: SolutionSet, a: usize, with: SolutionSet, without: SolutionSet) -> bool {
    &&& with.wf()
    &&& without.wf()
    &&& with.graph() == ss.graph()
    &&& without.graph() == ss.graph()
    &&& with.s_set() == ss.s_set().insert(a)
    &&& with.t_set() == ss.t_set()
    &&& without.s_set() == ss.s_set()
    &&& without.t_set() == ss.t_set().insert(a)
}

/// Adding a dominator adds its closed neighbourhood to the covered nodes, so
/// coverage never shrinks.
pub proof fn lemma_coverage_monotone(g: UnGraph, s: Set<usize>, a: usize)
    ensures
        covered_by(g, s.insert(a)) == covered_by(g, s).union(ball(g, a)),
        covered_by(g, s).subset_of(covered_by(g, s.insert(a))),
{
    let l = covered_by(g, s.insert(a));
    let r = covered_by(g, s).union(ball(g, a));
    assert forall|x: usize| l.contains(x) <==> r.contains(x) by {
        if l.contains(x) {
            let d = choose|d: usize| s.insert(a).contains(d) && #[trigger] ball(g, d).contains(x);
            if d != a {
                assert(s.contains(d));
            }
        }
        if ball(g, a).contains(x) {
            assert(s.insert(a).contains(a));
        }
        if covered_by(g, s).contains(x) {
            let d = choose|d: usize| s.contains(d) && #[trigger] ball(g, d).contains(x);
            assert(s.insert(a).contains(d));
        }
    }
    assert(l =~= r);
}

/// `S` and `T` of a partial solution never share a node.
pub proof fn lemma_partition(ss: SolutionSet)
    requires
        ss.wf(),
    ensures
        ss.s_set().disjoint(ss.t_set()),
        ss.s_set().intersect(ss.t_set()) == Set::<usize>::empty(),
{
    assert(ss.s_set().intersect(ss.t_set()) =~= Set::<usize>::empty());
}

/// The nodes outside `c` covered by some node of `e`.
pub open spec fn newly_covered(g: UnGraph, c: Set<usize>, e: Set<usize>) -> Set<usize> {
    Set::new(|x: usize| x < graph_node_count(g) && !c.contains(x) && exists|d: usize| e.contains(d) && #[trigger] ball(g, d).contains(x))
}

/// Nodes that each cover at most `m` nodes outside `c` together cover at
/// most `|e| * m` of them.
pub proof fn lemma_newly_covered_len(g: UnGraph, c: Set<usize>, e: Set<usize>, m: nat)
    requires
        e.finite(),
        forall|d: usize| #[trigger] e.contains(d) ==> ball(g, d).difference(c).len() <= m,
    ensures
        newly_covered(g, c, e).finite(),
        newly_covered(g, c, e).len() <= e.len() * m,
    decreases e.len(),
{
    lemma_node_set_finite(g);
    vstd::set_lib::lemma_len_subset(newly_covered(g, c, e), node_set(g));
    if e.len() == 0 {
        assert(e =~= Set::empty());
        assert(newly_covered(g, c, e) =~= Set::empty());
    } else {
        let d = e.choose();
        let e2 = e.remove(d);
        lemma_newly_covered_len(g, c, e2, m);
        let part = ball(g, d).difference(c);
        lemma_ball_finite(g, d);
        assert(newly_covered(g, c, e).subset_of(newly_covered(g, c, e2).union(part))) by {
            assert forall|x: usize| newly_covered(g, c, e).contains(x) implies newly_covered(g, c, e2).union(part).contains(x) by {
                let d2 = choose|d2: usize| e.contains(d2) && #[trigger] ball(g, d2).contains(x);
                if d2 != d {
                    assert(e2.contains(d2));
                }
            }
        }
        vstd::set_lib::lemma_len_union(newly_covered(g, c, e2), part);
        vstd::set_lib::lemma_len_subset(newly_covered(g, c, e), newly_covered(g, c, e2).union(part));
        let k = e.len() as int;
        assert((k - 1) * m + m == k * m) by (nonlinear_arith);
    }
}

/// Every dominating set that extends a partial solution adds nodes of the
/// undecided set, none covering more than `max_w` uncovered nodes, so it adds
/// at least `|uncovered| / max_w` nodes.
pub proof fn lemma_uncovered_bound(ss: SolutionSet, d: Set<usize>)
    requires
        ss.wf(),
        is_dominating(ss.graph(), d),
        extends(d, ss.s_set(), ss.t_set()),
    ensures
        d.finite(),
        d.len() == ss.s_set().len() + d.difference(ss.s_set()).len(),
        ss.uncovered().len() <= d.difference(ss.s_set()).len() * ss.max_w(),
{
    let g = ss.graph();
    let s = ss.s_set();
    let e = d.difference(s);
    let c = ss.covered();
    let m = ss.max_w();
    ss.lemma_wf_facts();
    lemma_node_set_finite(g);
    lemma_covered_finite(g, s);
    vstd::set_lib::lemma_len_subset(d, node_set(g));
    vstd::set_lib::lemma_len_subset(e, d);
    lemma_branch_node_max(g, s, ss.t_set(), ss.branch_node());
    assert forall|x: usize| #[trigger] e.contains(x) implies ball(g, x).difference(c).len() <= m by {
        assert(ss.undecided().contains(x));
    }
    lemma_newly_covered_len(g, c, e, m);
    assert forall|x: usize| ss.uncovered().contains(x) implies newly_covered(g, c, e).contains(x) by {
        assert(covered_by(g, d).contains(x));
        let w = choose|w: usize| d.contains(w) && #[trigger] ball(g, w).contains(x);
        if s.contains(w) {
            assert(c.contains(x));
        }
        assert(e.contains(w));
    }
    vstd::set_lib::lemma_len_subset(ss.uncovered(), newly_covered(g, c, e));
    assert(d =~= s.union(e));
    vstd::set_lib::lemma_set_disjoint_lens(s, e);
}

/// Admissibility: the lower bound of a partial solution is at most the size
/// of every dominating set that extends it.
pub proof fn lemma_admissible(ss: SolutionSet, d: Set<usize>)
    requires
        ss.wf(),
        is_dominating(ss.graph(), d),
        extends(d, ss.s_set(), ss.t_set()),
    ensures
        ss.bound().valid(),
        ss.bound().at_most(d.len() as int),
        ss.bound().whole <= d.len(),
{
    lemma_uncovered_bound(ss, d);
    ss.lemma_wf_facts();
    let m = ss.max_w();
    let u = ss.uncovered().len();
    let sl = ss.s_set().len();
    let el = d.difference(ss.s_set()).len();
    lemma_branch_node_max(ss.graph(), ss.s_set(), ss.t_set(), ss.branch_node());
    if m != 0 {
        let mm = ss.branch_node().unwrap();
        lemma_ball_finite(ss.graph(), mm);
        vstd::set_lib::lemma_len_difference(ball(ss.graph(), mm), ss.covered());
        let (mi, ui, si, ei) = (m as int, u as int, sl as int, el as int);
        assert(ui / mi <= ui) by (nonlinear_arith)
            requires mi > 0, ui >= 0;
        assert((si + ui / mi) * mi + ui % mi == si * mi + ui) by (nonlinear_arith)
            requires mi > 0;
        assert(si * mi + ui <= (si + ei) * mi) by (nonlinear_arith)
            requires ui <= ei * mi;
        assert(ui % mi < mi) by (nonlinear_arith)
            requires mi > 0;
    }
    lemma_at_most_whole(ss.bound(), d.len() as int);
}


/// At most one choice satisfies `is_branch_node`.
pub proof fn lemma_branch_node_unique(g: UnGraph, s: Set<usize>, t: Set<usize>, r1: Option<usize>, r2: Option<usize>)
    requires
        is_branch_node(g, s, t, r1),
        is_branch_node(g, s, t, r2),
    ensures
        r1 == r2,
{
    match (r1, r2) {
        (Some(a), Some(b)) => {
            assert(undecided(g, s, t).contains(a) && undecided(g, s, t).contains(b));
        },
        (Some(a), None) => {
            assert(undecided(g, s, t).contains(a));
        },
        (None, Some(b)) => {
            assert(undecided(g, s, t).contains(b));
        },
        (None, None) => {},
    }
}

/// Branching is deterministic: two branchings of the same partial solution
/// on the same node give structurally identical children.
pub proof fn lemma_branching_deterministic(
    ss: SolutionSet,
    a: usize,
    with1: SolutionSet,
    without1: SolutionSet,
    with2: SolutionSet,
    without2: SolutionSet,
)
    requires
        is_branch_pair(ss, a, with1, without1),
        is_branch_pair(ss, a, with2, without2),
    ensures
        with1.same_state(with2),
        without1.same_state(without2),
{
    with1.lemma_determined(with2);
    without1.lemma_determined(without2);
}

} // verus!
