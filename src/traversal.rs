//! The mathematical model of blind search: the graph's shape, the search's
//! parameters, and the sequence of states that the search goes through.
use crate::containers::{next_index, without_next};
use crate::graph::{BlindSearch, Direction};
use vstd::prelude::*;
use vstd::set_lib::lemma_len_subset;

verus! {

/// What traversal sees of a graph: for each vertex, the targets of its
/// adjacency records in stored order, and its level.
pub struct Topology {
    pub adj: Seq<Seq<usize>>,
    pub levels: Seq<Option<usize>>,
}

/// The parameters of one blind search.
pub struct SearchConfig {
    pub algorithm: BlindSearch,
    pub direction: Direction,
    pub start: usize,
    pub limit: Option<usize>,
    pub iterative: bool,
}

/// The state of a search between two removals from the frontier.
///
/// `frontier` is in insertion order; `quota` is the number of the current
/// generation, counted from zero, and `discovered` the number of vertices
/// admitted to the frontier since the generation began.
pub struct SearchState {
    pub frontier: Seq<usize>,
    pub visited: Set<usize>,
    pub quota: nat,
    pub discovered: nat,
}

impl SearchConfig {
    /// Whether the frontier hands out its newest vertex first.
    pub open spec fn lifo(self) -> bool {
        self.algorithm is DepthFirstSearch
    }
}

/// The action, run on `v` while looking for `goal`, may ask to go on.
pub open spec fn passes<R, F: Fn(usize, usize) -> (bool, Option<R>)>(
    action: F,
    v: usize,
    goal: usize,
) -> bool {
    exists|res: Option<R>| #[trigger] action.ensures((v, goal), (false, res))
}

/// The vertex indices below `n`.
pub open spec fn below(n: nat) -> Set<usize> {
    Set::new(|v: usize| v < n)
}

/// There are exactly `n` vertex indices below `n`.
pub proof fn lemma_below_len(n: nat)
    requires
        n <= usize::MAX,
    ensures
        below(n).finite(),
        below(n).len() == n,
    decreases n,
{
    if n == 0 {
        assert(below(n) =~= Set::<usize>::empty());
    } else {
        lemma_below_len((n - 1) as nat);
        assert(below(n) =~= below((n - 1) as nat).insert((n - 1) as usize));
    }
}

impl Topology {
    /// Number of vertices.
    pub open spec fn n(self) -> nat {
        self.adj.len()
    }

    /// There is a level entry for every vertex, and every adjacency target is a vertex.
    pub open spec fn wf(self) -> bool {
        &&& self.levels.len() == self.adj.len()
        &&& self.adj.len() <= usize::MAX
        &&& forall|u: int, i: int|
            0 <= u < self.adj.len() && 0 <= i < self.adj[u].len() ==> #[trigger] self.adj[u][i]
                < self.adj.len()
    }

    /// Some adjacency record of `u` leads to `v`.
    pub open spec fn is_edge(self, u: usize, v: usize) -> bool {
        u < self.n() && self.adj[u as int].contains(v)
    }

    /// `p` is a non-empty sequence of vertices, each connected to the next.
    pub open spec fn is_path(self, p: Seq<usize>) -> bool {
        &&& p.len() > 0
        &&& forall|i: int| 0 <= i < p.len() - 1 ==> #[trigger] self.is_edge(p[i], p[i + 1])
    }

    /// Some path leads from `s` to `v`.
    pub open spec fn reachable(self, s: usize, v: usize) -> bool {
        exists|p: Seq<usize>| #[trigger] self.is_path(p) && p[0] == s && p.last() == v
    }

    /// The targets of `u`'s adjacency records in the order `dir` examines them.
    pub open spec fn order(self, u: usize, dir: Direction) -> Seq<usize> {
        match dir {
            Direction::Right => self.adj[u as int],
            Direction::Left => self.adj[u as int].reverse(),
        }
    }

    /// Whether `v`'s level passes `limit`; a vertex without a level never does.
    pub open spec fn level_ok(self, limit: Option<usize>, v: usize) -> bool {
        match limit {
            None => true,
            Some(l) => match self.levels[v as int] {
                Some(x) => x <= l,
                None => false,
            },
        }
    }

    /// Whether the frontier takes `v` in state `st`.
    pub open spec fn admits(self, c: SearchConfig, st: SearchState, v: usize) -> bool {
        !st.visited.contains(v) && self.level_ok(c.limit, v)
    }

    /// Offers `v` to the frontier.
    pub open spec fn offer(self, c: SearchConfig, st: SearchState, v: usize) -> SearchState {
        if self.admits(c, st, v) {
            SearchState {
                frontier: st.frontier.push(v),
                visited: st.visited.insert(v),
                quota: st.quota,
                discovered: st.discovered + 1,
            }
        } else {
            st
        }
    }

    /// Offers the first `i` of `cands` to the frontier, in order.
    pub open spec fn expand(self, c: SearchConfig, st: SearchState, cands: Seq<usize>, i: nat) -> SearchState
        decreases i,
    {
        if i == 0 {
            st
        } else {
            self.offer(c, self.expand(c, st, cands, (i - 1) as nat), cands[i - 1])
        }
    }

    /// The state of a generation's beginning: only `start` is known.
    pub open spec fn fresh(c: SearchConfig, quota: nat) -> SearchState {
        SearchState { frontier: seq![c.start], visited: set![c.start], quota, discovered: 0 }
    }

    /// The vertex that leaves the frontier next.
    pub open spec fn next_vertex(c: SearchConfig, st: SearchState) -> usize {
        st.frontier[next_index(st.frontier.len() as int, c.lifo())]
    }

    /// One round of the search: the next vertex leaves the frontier (the visit
    /// action runs on it), then either a new generation begins or the vertex
    /// is expanded. An empty frontier stays as it is.
    pub open spec fn step(self, c: SearchConfig, st: SearchState) -> SearchState {
        if st.frontier.len() == 0 {
            st
        } else if c.iterative && st.discovered == st.quota {
            Self::fresh(c, st.quota + 1)
        } else {
            let v = Self::next_vertex(c, st);
            let rest = SearchState {
                frontier: without_next(st.frontier, c.lifo()),
                visited: st.visited,
                quota: st.quota,
                discovered: st.discovered,
            };
            let cands = self.order(v, c.direction);
            self.expand(c, rest, cands, cands.len())
        }
    }

    /// The state after `k` rounds.
    pub open spec fn run(self, c: SearchConfig, k: nat) -> SearchState
        decreases k,
    {
        if k == 0 {
            Self::fresh(c, 0)
        } else {
            self.step(c, self.run(c, (k - 1) as nat))
        }
    }

    /// The frontier is empty after `k` rounds.
    pub open spec fn done(self, c: SearchConfig, k: nat) -> bool {
        self.run(c, k).frontier.len() == 0
    }

    /// The vertex visited in round `k`.
    pub open spec fn visit(self, c: SearchConfig, k: nat) -> usize {
        Self::next_vertex(c, self.run(c, k))
    }

    /// The vertices visited in the first `k` rounds, in order.
    pub open spec fn visits(self, c: SearchConfig, k: nat) -> Seq<usize> {
        Seq::new(k, |i: int| self.visit(c, i as nat))
    }

    /// A search looking for `goal` with `action` ends in round `k` with result
    /// `r`: in every earlier round the action asked to go on; in round `k`
    /// either the frontier was empty and nothing is returned, or the action
    /// asked to stop and its result is returned.
    pub open spec fn ends_at<R, F: Fn(usize, usize) -> (bool, Option<R>)>(
        self,
        c: SearchConfig,
        action: F,
        goal: usize,
        k: nat,
        r: Option<R>,
    ) -> bool {
        &&& forall|i: nat| i < k ==> !#[trigger] self.done(c, i)
        &&& forall|i: nat| i < k ==> passes::<R, F>(action, #[trigger] self.visit(c, i), goal)
        &&& if self.done(c, k) {
            r is None
        } else {
            action.ensures((self.visit(c, k), goal), (true, r))
        }
    }

    /// `lv` layers the vertices reachable from `root` breadth-first: `root` has
    /// level 1, every other reachable vertex has one more than some reachable
    /// vertex with an edge to it, and no edge between reachable vertices climbs
    /// by more than one level. Together these make each level one more than the
    /// vertex's hop distance from `root`.
    pub open spec fn layered(self, root: usize, lv: Seq<Option<usize>>) -> bool {
        &&& lv[root as int] == Some(1usize)
        &&& forall|v: usize| v < self.n() && #[trigger] self.reachable(root, v) ==> lv[v as int] is Some
        &&& forall|v: usize|
            v < self.n() && v != root && #[trigger] self.reachable(root, v) ==> exists|u: usize|
                #[trigger] self.is_edge(u, v) && self.reachable(root, u) && lv[v as int]->0 == lv[u as int]->0
                    + 1
        &&& forall|u: usize, v: usize|
            self.reachable(root, u) && #[trigger] self.is_edge(u, v) ==> lv[v as int]->0 <= lv[u as int]->0
                + 1
    }

    /// What holds of every state that a search reaches.
    pub open spec fn inv(self, c: SearchConfig, st: SearchState) -> bool {
        &&& st.visited.finite()
        &&& st.visited.len() == st.discovered + 1
        &&& st.visited.contains(c.start)
        &&& forall|v: usize|
            #[trigger] st.visited.contains(v) ==> v < self.n() && self.reachable(c.start, v)
        &&& forall|i: int| 0 <= i < st.frontier.len() ==> st.visited.contains(#[trigger] st.frontier[i])
        &&& st.quota <= self.n()
    }

    /// The lexicographic measure that each round lowers: first the
    /// generations left, then the frontier's work left.
    pub open spec fn measure(self, st: SearchState) -> (int, int) {
        (self.n() - st.quota, 2 * (self.n() - st.discovered) + st.frontier.len())
    }

    /// Every vertex reaches itself.
    pub proof fn lemma_reachable_self(self, s: usize)
        ensures
            self.reachable(s, s),
    {
        let p = seq![s];
        assert(self.is_path(p));
    }

    /// A vertex that `s` reaches leads `s` on to its targets.
    pub proof fn lemma_reachable_step(self, s: usize, u: usize, v: usize)
        requires
            self.reachable(s, u),
            self.is_edge(u, v),
        ensures
            self.reachable(s, v),
    {
        let p = choose|p: Seq<usize>| #[trigger] self.is_path(p) && p[0] == s && p.last() == u;
        let q = p.push(v);
        assert forall|i: int| 0 <= i < q.len() - 1 implies #[trigger] self.is_edge(q[i], q[i + 1]) by {
            if i < p.len() - 1 {
                assert(self.is_edge(p[i], p[i + 1]));
            }
        }
        assert(self.is_path(q));
    }

    /// A set of vertices that holds `s` and every target of its members holds
    /// every vertex reachable from `s`.
    pub proof fn lemma_closed_holds_reachable(self, s: usize, cl: Set<usize>, v: usize)
        requires
            cl.contains(s),
            forall|a: usize, b: usize| cl.contains(a) && #[trigger] self.is_edge(a, b) ==> cl.contains(b),
            self.reachable(s, v),
        ensures
            cl.contains(v),
    {
        let p = choose|p: Seq<usize>| #[trigger] self.is_path(p) && p[0] == s && p.last() == v;
        self.lemma_closed_holds_path(s, cl, p, p.len() - 1);
    }

    proof fn lemma_closed_holds_path(self, s: usize, cl: Set<usize>, p: Seq<usize>, i: int)
        requires
            cl.contains(s),
            forall|a: usize, b: usize| cl.contains(a) && #[trigger] self.is_edge(a, b) ==> cl.contains(b),
            self.is_path(p),
            p[0] == s,
            0 <= i < p.len(),
        ensures
            cl.contains(p[i]),
        decreases i,
    {
        if i > 0 {
            self.lemma_closed_holds_path(s, cl, p, i - 1);
            let j = i - 1;
            assert(self.is_edge(p[j], p[j + 1]));
        }
    }

    /// At most all vertices but the start can have been admitted.
    pub proof fn lemma_inv_bound(self, c: SearchConfig, st: SearchState)
        requires
            self.wf(),
            self.inv(c, st),
        ensures
            st.discovered + 1 <= self.n(),
    {
        lemma_below_len(self.n());
        assert(st.visited.subset_of(below(self.n())));
        lemma_len_subset(st.visited, below(self.n()));
    }

    /// What offering candidates to the frontier keeps and changes.
    pub proof fn lemma_expand(self, c: SearchConfig, st: SearchState, cands: Seq<usize>, i: nat)
        requires
            self.wf(),
            self.inv(c, st),
            i <= cands.len(),
            forall|j: int|
                0 <= j < cands.len() ==> #[trigger] cands[j] < self.n() && self.reachable(
                    c.start,
                    cands[j],
                ),
        ensures
            ({
                let st2 = self.expand(c, st, cands, i);
                &&& self.inv(c, st2)
                &&& st2.quota == st.quota
                &&& st2.discovered >= st.discovered
                &&& st2.frontier.len() == st.frontier.len() + (st2.discovered - st.discovered)
                &&& st2.frontier.subrange(0, st.frontier.len() as int) == st.frontier
                &&& st.visited.subset_of(st2.visited)
                &&& forall|j: int|
                    0 <= j < i && self.level_ok(c.limit, #[trigger] cands[j])
                        ==> st2.visited.contains(cands[j])
                &&& forall|v: usize|
                    #[trigger] st2.visited.contains(v) && !st.visited.contains(v) ==> self.level_ok(
                        c.limit,
                        v,
                    )
                &&& forall|j: int|
                    st.frontier.len() <= j < st2.frontier.len() ==> !st.visited.contains(
                        #[trigger] st2.frontier[j],
                    )
                &&& st.frontier.no_duplicates() ==> st2.frontier.no_duplicates()
                &&& forall|v: usize|
                    #[trigger] st2.visited.contains(v) && !st.visited.contains(v) ==> st2.frontier.contains(v)
                &&& forall|j: int|
                    st.frontier.len() <= j < st2.frontier.len() ==> cands.contains(#[trigger] st2.frontier[j])
            }),
        decreases i,
    {
        if i > 0 {
            self.lemma_expand(c, st, cands, (i - 1) as nat);
            let prev = self.expand(c, st, cands, (i - 1) as nat);
            let v = cands[i - 1];
            let st2 = self.expand(c, st, cands, i);
            assert(st2 == self.offer(c, prev, v));
            if self.admits(c, prev, v) {
                assert(st2.frontier.subrange(0, prev.frontier.len() as int) =~= prev.frontier);
                assert(st2.frontier.subrange(0, st.frontier.len() as int) =~= prev.frontier.subrange(
                    0,
                    st.frontier.len() as int,
                ));
                assert forall|j: int| 0 <= j < st2.frontier.len() implies st2.visited.contains(
                    #[trigger] st2.frontier[j],
                ) by {
                    if j < prev.frontier.len() {
                        assert(prev.visited.contains(prev.frontier[j]));
                    }
                }
                assert forall|j: int|
                    st.frontier.len() <= j < st2.frontier.len() implies !st.visited.contains(
                    #[trigger] st2.frontier[j],
                ) by {
                    if j < prev.frontier.len() {
                        assert(!st.visited.contains(prev.frontier[j]));
                    }
                }
                assert(st2.frontier[st2.frontier.len() - 1] == v);
                assert forall|j: int|
                    st.frontier.len() <= j < st2.frontier.len() implies cands.contains(#[trigger] st2.frontier[j]) by {
                    if j < prev.frontier.len() {
                        assert(prev.frontier[j] == st2.frontier[j]);
                    } else {
                        assert(cands[i - 1] == v);
                    }
                }
                assert forall|x: usize|
                    #[trigger] st2.visited.contains(x) && !st.visited.contains(x) implies st2.frontier.contains(x) by {
                    if x != v {
                        let i = choose|i: int| 0 <= i < prev.frontier.len() && prev.frontier[i] == x;
                        assert(st2.frontier[i] == x);
                    }
                }
                if st.frontier.no_duplicates() {
                    assert forall|a: int, b: int|
                        0 <= a < st2.frontier.len() && 0 <= b < st2.frontier.len() && a != b
                            implies st2.frontier[a] != st2.frontier[b] by {
                        if a < prev.frontier.len() && b < prev.frontier.len() {
                        } else if a < prev.frontier.len() {
                            assert(prev.visited.contains(prev.frontier[a]));
                        } else {
                            assert(prev.visited.contains(prev.frontier[b]));
                        }
                    }
                }
            }
        }
    }

    /// Each round keeps the invariant and lowers the measure.
    pub proof fn lemma_step(self, c: SearchConfig, st: SearchState)
        requires
            self.wf(),
            c.start < self.n(),
            self.inv(c, st),
            st.frontier.len() > 0,
        ensures
            self.inv(c, self.step(c, st)),
            ({
                let m1 = self.measure(st);
                let m2 = self.measure(self.step(c, st));
                &&& 0 <= m2.0 && 0 <= m2.1
                &&& m2.0 < m1.0 || (m2.0 == m1.0 && m2.1 < m1.1)
            }),
    {
        self.lemma_inv_bound(c, st);
        let st2 = self.step(c, st);
        if c.iterative && st.discovered == st.quota {
            self.lemma_reachable_self(c.start);
            assert(set![c.start].len() == 1) by {
                assert(set![c.start] =~= Set::<usize>::empty().insert(c.start));
            }
        } else {
            let v = Self::next_vertex(c, st);
            let idx = next_index(st.frontier.len() as int, c.lifo());
            assert(st.visited.contains(st.frontier[idx]));
            let rest = SearchState {
                frontier: without_next(st.frontier, c.lifo()),
                visited: st.visited,
                quota: st.quota,
                discovered: st.discovered,
            };
            assert forall|i: int| 0 <= i < rest.frontier.len() implies rest.visited.contains(
                #[trigger] rest.frontier[i],
            ) by {
                if c.lifo() {
                    assert(rest.frontier[i] == st.frontier[i]);
                } else {
                    assert(rest.frontier[i] == st.frontier[i + 1]);
                }
            }
            let cands = self.order(v, c.direction);
            self.lemma_order_targets(c, v, c.direction);
            self.lemma_expand(c, rest, cands, cands.len());
            self.lemma_inv_bound(c, st2);
        }
    }

    /// Every target that the expansion of a reachable vertex offers is a
    /// reachable vertex.
    pub proof fn lemma_order_targets(self, c: SearchConfig, v: usize, dir: Direction)
        requires
            self.wf(),
            v < self.n(),
            self.reachable(c.start, v),
        ensures
            forall|j: int|
                0 <= j < self.order(v, dir).len() ==> #[trigger] self.order(v, dir)[j] < self.n()
                    && self.reachable(c.start, self.order(v, dir)[j]),
    {
        let cands = self.order(v, dir);
        assert forall|j: int| 0 <= j < cands.len() implies #[trigger] cands[j] < self.n()
            && self.reachable(c.start, cands[j]) by {
            let k = match dir {
                Direction::Right => j,
                Direction::Left => self.adj[v as int].len() - 1 - j,
            };
            assert(cands[j] == self.adj[v as int][k]);
            assert(self.is_edge(v, cands[j]));
            self.lemma_reachable_step(c.start, v, cands[j]);
        }
    }

    /// Every state that a search reaches satisfies the invariant.
    pub proof fn lemma_run_inv(self, c: SearchConfig, k: nat)
        requires
            self.wf(),
            c.start < self.n(),
        ensures
            self.inv(c, self.run(c, k)),
        decreases k,
    {
        if k == 0 {
            self.lemma_reachable_self(c.start);
            assert(set![c.start] =~= Set::<usize>::empty().insert(c.start));
        } else {
            self.lemma_run_inv(c, (k - 1) as nat);
            if self.run(c, (k - 1) as nat).frontier.len() > 0 {
                self.lemma_step(c, self.run(c, (k - 1) as nat));
            }
        }
    }
}

} // verus!
