//! The graph: a label and an arena of vertices, with level assignment and
//! blind search over it.
use crate::containers::{Container, ContainerIter, Queue, Stack};
use crate::containers::{next_index, removal_order, without_next};
use crate::traversal::{below, lemma_below_len, passes, SearchConfig, SearchState, Topology};
use vstd::set_lib::lemma_len_subset;
use crate::vertexs::{Adjacency, Vertex};
use vstd::prelude::*;

verus! {

#[derive(Clone, Copy, Debug, PartialEq, Eq, Structural)]
/// The order in which a vertex's adjacency records are examined: `Right` in
/// stored order, `Left` in reverse.
pub enum Direction {
    Left,
    Right,
}

/// The blind search algorithms: the frontier is a queue for breadth-first and
/// a stack for depth-first search.
#[derive(Clone, Copy, Debug, PartialEq, Eq, Structural)]
pub enum BlindSearch {
    BreadthFirstSearch,
    DepthFirstSearch,
}

/// Heuristic search algorithms, named for completeness; none is run here.
#[derive(Clone, Copy, Debug, PartialEq, Eq, Structural)]
pub enum HeuristicSearch {
    AStar,
    HillClimbing,
}

/// The frontier of a search: a queue or a stack, chosen by the algorithm.
pub enum Agenda {
    Fifo(Queue<usize>),
    Lifo(Stack<usize>),
}

impl Container<usize> for Agenda {
    open spec fn items(&self) -> Seq<usize> {
        match self {
            Agenda::Fifo(q) => q.items(),
            Agenda::Lifo(s) => s.items(),
        }
    }

    open spec fn lifo(&self) -> bool {
        self is Lifo
    }

    fn size(&self) -> (r: usize) {
        match self {
            Agenda::Fifo(q) => q.size(),
            Agenda::Lifo(s) => s.size(),
        }
    }

    fn is_empty(&self) -> (r: bool) {
        match self {
            Agenda::Fifo(q) => q.is_empty(),
            Agenda::Lifo(s) => s.is_empty(),
        }
    }

    fn add(&mut self, value: usize) {
        match self {
            Agenda::Fifo(q) => q.add(value),
            Agenda::Lifo(s) => s.add(value),
        }
    }

    fn get(&mut self) -> (r: Option<usize>) {
        match self {
            Agenda::Fifo(q) => q.get(),
            Agenda::Lifo(s) => s.get(),
        }
    }

    fn peek(&self) -> (r: Option<usize>) {
        match self {
            Agenda::Fifo(q) => q.peek(),
            Agenda::Lifo(s) => s.peek(),
        }
    }

    fn iter(&self) -> (r: ContainerIter<usize>) {
        match self {
            Agenda::Fifo(q) => {
                let r = q.iter();
                assert(removal_order(q.items(), q.lifo()) == removal_order(self.items(), self.lifo()));
                r
            },
            Agenda::Lifo(s) => {
                let r = s.iter();
                assert(removal_order(s.items(), s.lifo()) == removal_order(self.items(), self.lifo()));
                r
            },
        }
    }
}

/// A frontier of the kind `lifo` asks for, holding only `start`.
fn fresh_agenda(lifo: bool, start: usize) -> (r: Agenda)
    ensures
        r.items() == seq![start],
        r.lifo() == lifo,
{
    let mut a = if lifo {
        Agenda::Lifo(Stack::new())
    } else {
        Agenda::Fifo(Queue::new())
    };
    a.add(start);
    proof {
        assert(a.items() =~= seq![start]);
    }
    a
}

/// `n` marks, of which only the one of `start` is set.
fn fresh_marks(n: usize, start: usize) -> (r: Vec<bool>)
    ensures
        r@.len() == n,
        forall|v: int| 0 <= v < n ==> r@[v] == (v == start),
{
    let mut marks: Vec<bool> = Vec::new();
    let mut i: usize = 0;
    while i < n
        invariant
            i <= n,
            marks@.len() == i,
            forall|v: int| 0 <= v < i ==> marks@[v] == (v == start),
        decreases n - i,
    {
        marks.push(i == start);
        i += 1;
    }
    marks
}

impl Direction {
    /// The name under which traces show the direction.
    pub fn label(&self) -> (r: &'static str)
        ensures
            *self == Direction::Left ==> r@ == "Izquierda"@,
            *self == Direction::Right ==> r@ == "Derecha"@,
    {
        match self {
            Direction::Left => "Izquierda",
            Direction::Right => "Derecha",
        }
    }
}

impl BlindSearch {
    /// The short name under which traces show the algorithm.
    pub fn label(&self) -> (r: &'static str)
        ensures
            *self == BlindSearch::BreadthFirstSearch ==> r@ == "BFS"@,
            *self == BlindSearch::DepthFirstSearch ==> r@ == "DFS"@,
    {
        match self {
            BlindSearch::BreadthFirstSearch => "BFS",
            BlindSearch::DepthFirstSearch => "DFS",
        }
    }
}

impl HeuristicSearch {
    /// The name under which traces show the algorithm.
    pub fn label(&self) -> (r: &'static str)
        ensures
            *self == HeuristicSearch::AStar ==> r@ == "A*"@,
            *self == HeuristicSearch::HillClimbing ==> r@ == "HillClimbing"@,
    {
        match self {
            HeuristicSearch::AStar => "A*",
            HeuristicSearch::HillClimbing => "HillClimbing",
        }
    }
}

/// A labelled collection of vertices. Vertices are named by their index in
/// the collection.
pub struct Graph<T, A> {
    pub label: String,
    pub vertexs: Vec<Vertex<T, A>>,
}

impl<T, A: Adjacency> Graph<T, A> {
    /// Number of vertices.
    pub open spec fn size(&self) -> nat {
        self.vertexs@.len()
    }

    /// The shape that traversal depends on: each vertex's adjacency targets
    /// and each vertex's level.
    pub open spec fn topology(&self) -> Topology {
        Topology {
            adj: self.vertexs@.map_values(|v: Vertex<T, A>| v.targets()),
            levels: self.vertexs@.map_values(|v: Vertex<T, A>| v.level),
        }
    }

    /// Every adjacency record leads to a vertex of this graph.
    pub open spec fn wf(&self) -> bool {
        self.topology().wf()
    }

    /// A graph labelled `label` over `vertexs`, in their order.
    pub fn new(label: String, vertexs: Vec<Vertex<T, A>>) -> (r: Graph<T, A>)
        ensures
            r.label@ == label@,
            r.vertexs@ == vertexs@,
    {
        Graph { label, vertexs }
    }

    /// The vertex at `index`; `None` when there is none.
    pub fn get(&self, index: usize) -> (r: Option<&Vertex<T, A>>)
        ensures
            index < self.vertexs@.len() ==> r == Some(&self.vertexs@[index as int]),
            index >= self.vertexs@.len() ==> r is None,
    {
        if index < self.vertexs.len() {
            Some(&self.vertexs[index])
        } else {
            None
        }
    }

    /// Blind search from `start`, looking for `seek`.
    ///
    /// The frontier starts with `start` alone. Each round takes the next
    /// vertex out of it (the oldest for breadth-first, the newest for
    /// depth-first search) and runs `action` on it and `seek`; when the action
    /// asks to stop, its result, `None` included, is returned. Otherwise the
    /// vertex's adjacency targets, in stored order for `Right` and in reverse
    /// for `Left`, are offered to the frontier; one is admitted when it is not yet marked
    /// visited and, under `lvl_limit`, its level is at most the limit, and it
    /// is then marked visited. An empty frontier ends the search with `None`.
    ///
    /// In `iterative` mode the search runs in generations, each beginning
    /// afresh from `start` with nothing visited but `start`. Generation `g`
    /// (counted from zero) ends at the first round that finds exactly `g`
    /// vertices admitted since it began: the vertex of that round is visited
    /// but not expanded, and generation `g + 1` begins. Visited marks live for
    /// one generation only; within it they keep vertices from being admitted
    /// twice, so that every generation, and with them the search, comes to an
    /// end. A generation whose frontier runs empty ends the search with `None`.
    ///
    /// The visit action receives the index of the current vertex and of the
    /// goal; any further context it needs it captures.
    pub fn blind_search<R, F: Fn(usize, usize) -> (bool, Option<R>)>(
        &self,
        algorithm: BlindSearch,
        direction: Direction,
        start: usize,
        seek: usize,
        lvl_limit: Option<usize>,
        iterative: bool,
        action: F,
    ) -> (r: Option<R>)
        requires
            self.wf(),
            start < self.size(),
            lvl_limit is Some ==> forall|v: usize|
                v < self.size() && self.topology().reachable(start, v) ==> (#[trigger] self.vertexs@[v as int]).level is Some,
            forall|cur: usize, goal: usize| action.requires((cur, goal)),
        ensures
            exists|k: nat|
                self.topology().ends_at(
                    (SearchConfig { algorithm, direction, start, limit: lvl_limit, iterative }),
                    action,
                    seek,
                    k,
                    r,
                ),
    {
        let ghost t = self.topology();
        let ghost c = SearchConfig { algorithm, direction, start, limit: lvl_limit, iterative };
        let n = self.vertexs.len();
        let lifo = match algorithm {
            BlindSearch::BreadthFirstSearch => false,
            BlindSearch::DepthFirstSearch => true,
        };
        let forward = match direction {
            Direction::Left => false,
            Direction::Right => true,
        };
        let mut agenda = fresh_agenda(lifo, start);
        let mut marks = fresh_marks(n, start);
        let mut quota: usize = 0;
        let mut discovered: usize = 0;
        let ghost mut k: nat = 0;
        proof {
            t.lemma_run_inv(c, 0);
            assert(t.run(c, 0).frontier =~= seq![start]);
        }
        loop
            invariant
                n == self.vertexs@.len(),
                t == self.topology(),
                c == (SearchConfig { algorithm, direction, start, limit: lvl_limit, iterative }),
                lifo == c.lifo(),
                forward == (direction == Direction::Right),
                t.wf(),
                start < n,
                lvl_limit is Some ==> forall|v: usize|
                    v < n && t.reachable(start, v) ==> (#[trigger] self.vertexs@[v as int]).level is Some,
                forall|cur: usize, goal: usize| action.requires((cur, goal)),
                t.inv(c, t.run(c, k)),
                agenda.items() == t.run(c, k).frontier,
                agenda.lifo() == lifo,
                marks@.len() == n,
                forall|v: usize| v < n ==> marks@[v as int] == #[trigger] t.run(c, k).visited.contains(v),
                quota == t.run(c, k).quota,
                discovered == t.run(c, k).discovered,
                forall|i: nat| i < k ==> !#[trigger] t.done(c, i),
                forall|i: nat| i < k ==> passes::<R, F>(action, #[trigger] t.visit(c, i), seek),
            decreases t.measure(t.run(c, k)).0, t.measure(t.run(c, k)).1,
        {
            let ghost st = t.run(c, k);
            proof {
                t.lemma_inv_bound(c, st);
                if st.frontier.len() > 0 {
                    t.lemma_step(c, st);
                    assert(t.run(c, k + 1) == t.step(c, st));
                }
            }
            let next = agenda.get();
            match next {
                None => {
                    assert(t.done(c, k));
                    assert(t.ends_at(c, action, seek, k, None::<R>));
                    return None;
                },
                Some(v) => {
                    assert(v == t.visit(c, k));
                    let (stop, res) = action(v, seek);
                    if stop {
                        assert(!t.done(c, k));
                        assert(action.ensures((t.visit(c, k), seek), (true, res)));
                        assert(t.ends_at(c, action, seek, k, res));
                        return res;
                    }
                    assert(action.ensures((v, seek), (false, res)));
                    assert(passes::<R, F>(action, v, seek));
                    assert(!t.done(c, k));
                    if iterative && discovered == quota {
                        agenda = fresh_agenda(lifo, start);
                        marks = fresh_marks(n, start);
                        quota = quota + 1;
                        discovered = 0;
                        proof {
                            assert(agenda.items() =~= t.run(c, k + 1).frontier);
                        }
                    } else {
                        let adjs = &self.vertexs[v].adjacencies;
                        let m = adjs.len();
                        let ghost base = SearchState {
                            frontier: agenda.items(),
                            visited: st.visited,
                            quota: st.quota,
                            discovered: st.discovered,
                        };
                        let ghost cands = t.order(v, direction);
                        proof {
                            assert(st.visited.contains(st.frontier[next_index(st.frontier.len() as int, lifo)]));
                            assert(base.frontier == without_next(st.frontier, lifo));
                            assert forall|i: int| 0 <= i < base.frontier.len() implies base.visited.contains(
                                #[trigger] base.frontier[i],
                            ) by {
                                if lifo {
                                    assert(base.frontier[i] == st.frontier[i]);
                                } else {
                                    assert(base.frontier[i] == st.frontier[i + 1]);
                                }
                            }
                            t.lemma_order_targets(c, v, direction);
                            assert(t.step(c, st) == t.expand(c, base, cands, cands.len()));
                        }
                        let mut j: usize = 0;
                        while j < m
                            invariant
                                n == self.vertexs@.len(),
                                t == self.topology(),
                                t.wf(),
                                c.limit == lvl_limit,
                                forward == (direction == Direction::Right),
                                start == c.start,
                                start < n,
                                lvl_limit is Some ==> forall|v: usize|
                                    v < n && t.reachable(start, v) ==> (#[trigger] self.vertexs@[v as int]).level
                                        is Some,
                                v < n,
                                adjs == &self.vertexs@[v as int].adjacencies,
                                m == adjs@.len(),
                                cands == t.order(v, direction),
                                cands.len() == m,
                                forall|i: int|
                                    0 <= i < cands.len() ==> #[trigger] cands[i] < t.n() && t.reachable(
                                        c.start,
                                        cands[i],
                                    ),
                                t.inv(c, base),
                                j <= m,
                                agenda.items() == t.expand(c, base, cands, j as nat).frontier,
                                agenda.lifo() == lifo,
                                marks@.len() == n,
                                forall|u: usize|
                                    u < n ==> marks@[u as int] == #[trigger] t.expand(
                                        c,
                                        base,
                                        cands,
                                        j as nat,
                                    ).visited.contains(u),
                                quota == base.quota,
                                discovered == t.expand(c, base, cands, j as nat).discovered,
                            decreases m - j,
                        {
                            let idx = if forward {
                                j
                            } else {
                                m - 1 - j
                            };
                            let w = adjs[idx].vertex();
                            proof {
                                assert(t.adj[v as int] == self.vertexs@[v as int].targets());
                                assert(w == t.adj[v as int][idx as int]);
                                assert(w == cands[j as int]);
                                t.lemma_expand(c, base, cands, j as nat);
                                t.lemma_expand(c, base, cands, (j + 1) as nat);
                                t.lemma_inv_bound(c, t.expand(c, base, cands, (j + 1) as nat));
                            }
                            let admitted = if marks[w] {
                                false
                            } else {
                                match lvl_limit {
                                    None => true,
                                    Some(l) => {
                                        proof {
                                            assert(t.levels[w as int] == self.vertexs@[w as int].level);
                                        }
                                        self.vertexs[w].level.unwrap() <= l
                                    },
                                }
                            };
                            if admitted {
                                marks.set(w, true);
                                agenda.add(w);
                                discovered = discovered + 1;
                            }
                            proof {
                                let e = t.expand(c, base, cands, (j + 1) as nat);
                                assert(e == t.offer(c, t.expand(c, base, cands, j as nat), w));
                                assert forall|u: usize| u < n implies marks@[u as int]
                                    == #[trigger] e.visited.contains(u) by {}
                            }
                            j += 1;
                        }
                        proof {
                            t.lemma_expand(c, base, cands, m as nat);
                        }
                    }
                    proof {
                        k = k + 1;
                    }
                },
            }
        }
    }

    /// Assigns levels breadth-first from `root`: `root` gets level 1, and each
    /// vertex first reached from a vertex of level `l` (adjacency records in
    /// stored order) gets `l + 1`. Vertices not reachable from `root` keep
    /// their level; nothing else changes.
    #[verifier::rlimit(60)]
    pub fn set_lvls(&mut self, root: usize)
        requires
            old(self).wf(),
            root < old(self).size(),
        ensures
            final(self).label == old(self).label,
            final(self).size() == old(self).size(),
            forall|v: int|
                0 <= v < old(self).size() ==> (#[trigger] final(self).vertexs@[v]).value
                    == old(self).vertexs@[v].value && final(self).vertexs@[v].adjacencies
                    == old(self).vertexs@[v].adjacencies,
            final(self).topology().adj == old(self).topology().adj,
            old(self).topology().layered(root, final(self).topology().levels),
            forall|v: usize|
                v < old(self).size() && !old(self).topology().reachable(root, v)
                    ==> final(self).vertexs@[v as int].level == old(self).vertexs@[v as int].level,
    {
        let ghost t = self.topology();
        let ghost old_vs = self.vertexs@;
        let n = self.vertexs.len();
        let mut queue: Queue<usize> = Queue::new();
        queue.add(root);
        let mut marks = fresh_marks(n, root);
        self.vertexs[root].level = Some(1);
        let ghost mut vis: Set<usize> = set![root];
        let ghost mut cur: nat = 1;
        proof {
            t.lemma_reachable_self(root);
            assert(vis =~= Set::<usize>::empty().insert(root));
            assert(queue.items() =~= seq![root]);
            assert(queue.items()[0] == root);
            lemma_below_len(n as nat);
        }
        loop
            invariant
                n == self.vertexs@.len(),
                n == old_vs.len(),
                t == old(self).topology(),
                old_vs == old(self).vertexs@,
                self.label == old(self).label,
                t.wf(),
                root < n,
                below(n as nat).finite(),
                below(n as nat).len() == n,
                forall|v: int|
                    0 <= v < n ==> (#[trigger] self.vertexs@[v]).value == old_vs[v].value
                        && self.vertexs@[v].adjacencies == old_vs[v].adjacencies,
                marks@.len() == n,
                forall|v: usize| v < n ==> marks@[v as int] == #[trigger] vis.contains(v),
                vis.finite(),
                vis.subset_of(below(n as nat)),
                vis.contains(root),
                forall|v: usize|
                    #[trigger] vis.contains(v) ==> t.reachable(root, v) && self.vertexs@[v as int].level
                        is Some && 1 <= self.vertexs@[v as int].level->0 <= vis.len()
                        && self.vertexs@[v as int].level->0 <= cur + 1,
                forall|v: usize|
                    v < n && !vis.contains(v) ==> #[trigger] self.vertexs@[v as int].level
                        == old_vs[v as int].level,
                self.vertexs@[root as int].level == Some(1usize),
                forall|i: int| 0 <= i < queue.items().len() ==> vis.contains(#[trigger] queue.items()[i]),
                queue.items().no_duplicates(),
                forall|i: int, j: int|
                    0 <= i < j < queue.items().len() ==> self.vertexs@[queue.items()[i] as int].level->0
                        <= self.vertexs@[queue.items()[j] as int].level->0,
                forall|i: int|
                    0 <= i < queue.items().len() ==> cur <= self.vertexs@[#[trigger] queue.items()[i] as int].level->0,
                forall|u: usize|
                    #[trigger] vis.contains(u) && !queue.items().contains(u) ==> self.vertexs@[u as int].level->0 <= cur
                        && forall|w: usize|
                        #[trigger] t.is_edge(u, w) ==> vis.contains(w) && self.vertexs@[w as int].level->0
                            <= self.vertexs@[u as int].level->0 + 1,
                forall|v: usize|
                    #[trigger] vis.contains(v) && v != root ==> exists|u: usize|
                        #[trigger] t.is_edge(u, v) && vis.contains(u) && self.vertexs@[v as int].level->0
                            == self.vertexs@[u as int].level->0 + 1,
            decreases 2 * (n - vis.len()) + queue.items().len(),
        {
            proof {
                lemma_below_len(n as nat);
                lemma_len_subset(vis, below(n as nat));
            }
            let ghost q0_pre = queue.items();
            let ghost measure0 = 2 * (n - vis.len()) + queue.items().len();
            let next = queue.get();
            match next {
                None => {
                    proof {
                        assert forall|a: usize, b: usize| vis.contains(a) && #[trigger] t.is_edge(a, b) implies vis.contains(b) by {
                            assert(!queue.items().contains(a));
                        }
                        assert forall|v: usize| v < n && t.reachable(root, v) implies vis.contains(v) by {
                            t.lemma_closed_holds_reachable(root, vis, v);
                        }
                        assert(self.topology().adj =~= t.adj) by {
                            assert forall|v: int| 0 <= v < n implies self.topology().adj[v] == t.adj[v] by {
                                assert(self.vertexs@[v].adjacencies == old_vs[v].adjacencies);
                            }
                        }
                        let lv = self.topology().levels;
                        assert forall|v: usize| v < t.n() && #[trigger] t.reachable(root, v) && v != root implies exists|p: usize|
                            #[trigger] t.is_edge(p, v) && t.reachable(root, p) && lv[v as int]->0 == lv[p as int]->0 + 1 by {
                            assert(vis.contains(v));
                            let p = choose|p: usize| #[trigger] t.is_edge(p, v) && vis.contains(p) && self.vertexs@[v as int].level->0
                                == self.vertexs@[p as int].level->0 + 1;
                            assert(t.is_edge(p, v) && t.reachable(root, p));
                        }
                        assert forall|a: usize, b: usize| t.reachable(root, a) && #[trigger] t.is_edge(a, b) implies lv[b as int]->0 <= lv[a as int]->0 + 1 by {
                            assert(vis.contains(a));
                            assert(!queue.items().contains(a));
                        }
                        assert(t.layered(root, lv));
                    }
                    return;
                },
                Some(u) => {
                    let lu = match self.vertexs[u].level {
                        Some(x) => x,
                        None => 0,
                    };
                    let m = self.vertexs[u].adjacencies.len();
                    proof {
                        assert(u == q0_pre[0]);
                        assert(queue.items() == q0_pre.subrange(1, q0_pre.len() as int));
                        assert(vis.contains(u));
                        assert(!queue.items().contains(u)) by {
                            if queue.items().contains(u) {
                                let i = choose|i: int| 0 <= i < queue.items().len() && queue.items()[i] == u;
                                assert(q0_pre[i + 1] == q0_pre[0]);
                            }
                        }
                        assert forall|i: int| 0 <= i < queue.items().len() implies lu <= self.vertexs@[#[trigger] queue.items()[i] as int].level->0 by {
                            assert(queue.items()[i] == q0_pre[i + 1]);
                        }
                        assert(vis.contains(q0_pre[0]));
                        assert(cur <= lu);
                        assert forall|x: usize|
                            #[trigger] vis.contains(x) && !queue.items().contains(x) && x != u implies self.vertexs@[x as int].level->0 <= lu
                                && forall|y: usize|
                                #[trigger] t.is_edge(x, y) ==> vis.contains(y) && self.vertexs@[y as int].level->0
                                    <= self.vertexs@[x as int].level->0 + 1 by {
                            assert(!q0_pre.contains(x)) by {
                                if q0_pre.contains(x) {
                                    let i = choose|i: int| 0 <= i < q0_pre.len() && q0_pre[i] == x;
                                    assert(queue.items()[i - 1] == x);
                                }
                            }
                        }
                        cur = lu as nat;
                    }
                    let mut j: usize = 0;
                    while j < m
                        invariant
                            n == self.vertexs@.len(),
                            n == old_vs.len(),
                            t == old(self).topology(),
                            old_vs == old(self).vertexs@,
                            self.label == old(self).label,
                            t.wf(),
                            root < n,
                            below(n as nat).finite(),
                            below(n as nat).len() == n,
                            vis.len() <= n,
                            2 * (n - vis.len()) + queue.items().len() + 1 <= measure0,
                            u < n,
                            j <= m,
                            m == old_vs[u as int].adjacencies@.len(),
                            lu == cur,
                            forall|v: int|
                                0 <= v < n ==> (#[trigger] self.vertexs@[v]).value == old_vs[v].value
                                    && self.vertexs@[v].adjacencies == old_vs[v].adjacencies,
                            marks@.len() == n,
                            forall|v: usize| v < n ==> marks@[v as int] == #[trigger] vis.contains(v),
                            vis.finite(),
                            vis.subset_of(below(n as nat)),
                            vis.contains(root),
                            vis.contains(u),
                            self.vertexs@[u as int].level == Some(lu),
                            !queue.items().contains(u),
                            forall|v: usize|
                                #[trigger] vis.contains(v) ==> t.reachable(root, v) && self.vertexs@[v as int].level
                                    is Some && 1 <= self.vertexs@[v as int].level->0 <= vis.len()
                                    && self.vertexs@[v as int].level->0 <= cur + 1,
                            forall|v: usize|
                                v < n && !vis.contains(v) ==> #[trigger] self.vertexs@[v as int].level
                                    == old_vs[v as int].level,
                            self.vertexs@[root as int].level == Some(1usize),
                            forall|i: int| 0 <= i < queue.items().len() ==> vis.contains(#[trigger] queue.items()[i]),
                            queue.items().no_duplicates(),
                            forall|i: int, k: int|
                                0 <= i < k < queue.items().len() ==> self.vertexs@[queue.items()[i] as int].level->0
                                    <= self.vertexs@[queue.items()[k] as int].level->0,
                            forall|i: int|
                                0 <= i < queue.items().len() ==> cur <= self.vertexs@[#[trigger] queue.items()[i] as int].level->0,
                            forall|x: usize|
                                #[trigger] vis.contains(x) && !queue.items().contains(x) && x != u ==> self.vertexs@[x as int].level->0 <= cur
                                    && forall|w: usize|
                                    #[trigger] t.is_edge(x, w) ==> vis.contains(w) && self.vertexs@[w as int].level->0
                                        <= self.vertexs@[x as int].level->0 + 1,
                            forall|i: int|
                                0 <= i < j ==> vis.contains(#[trigger] t.adj[u as int][i]) && self.vertexs@[t.adj[u as int][i] as int].level->0
                                    <= cur + 1,
                            forall|v: usize|
                                #[trigger] vis.contains(v) && v != root ==> exists|p: usize|
                                    #[trigger] t.is_edge(p, v) && vis.contains(p) && self.vertexs@[v as int].level->0
                                        == self.vertexs@[p as int].level->0 + 1,
                        decreases m - j,
                    {
                        let w = self.vertexs[u].adjacencies[j].vertex();
                        proof {
                            assert(t.adj[u as int] == old_vs[u as int].targets());
                            assert(w == t.adj[u as int][j as int]);
                            assert(t.adj[u as int].contains(w));
                            assert(t.is_edge(u, w));
                        }
                        if !marks[w] {
                            proof {
                                assert(vis.insert(w).subset_of(below(n as nat)));
                                lemma_len_subset(vis.insert(w), below(n as nat));
                                t.lemma_reachable_step(root, u, w);
                            }
                            marks.set(w, true);
                            self.vertexs[w].level = Some(lu + 1);
                            let ghost q1 = queue.items();
                            queue.add(w);
                            proof {
                                let old_vis = vis;
                                vis = vis.insert(w);
                                assert forall|i: int| 0 <= i < queue.items().len() implies vis.contains(#[trigger] queue.items()[i]) by {
                                    if i < q1.len() {
                                        assert(queue.items()[i] == q1[i]);
                                    }
                                }
                                assert(queue.items().no_duplicates()) by {
                                    assert forall|a: int, b: int| 0 <= a < queue.items().len() && 0 <= b < queue.items().len() && a != b implies queue.items()[a] != queue.items()[b] by {
                                        if a < q1.len() {
                                            assert(old_vis.contains(q1[a]));
                                        }
                                        if b < q1.len() {
                                            assert(old_vis.contains(q1[b]));
                                        }
                                    }
                                }
                                assert(!queue.items().contains(u)) by {
                                    if queue.items().contains(u) {
                                        let i = choose|i: int| 0 <= i < queue.items().len() && queue.items()[i] == u;
                                        if i < q1.len() {
                                            assert(q1[i] == u);
                                        }
                                    }
                                }
                                assert forall|i: int, k: int|
                                    0 <= i < k < queue.items().len() implies self.vertexs@[queue.items()[i] as int].level->0
                                        <= self.vertexs@[queue.items()[k] as int].level->0 by {
                                    assert(old_vis.contains(queue.items()[i]));
                                    if k < q1.len() {
                                        assert(old_vis.contains(queue.items()[k]));
                                    }
                                }
                                assert forall|i: int|
                                    0 <= i < queue.items().len() implies cur <= self.vertexs@[#[trigger] queue.items()[i] as int].level->0 by {
                                    if i < q1.len() {
                                        assert(queue.items()[i] == q1[i]);
                                    }
                                }
                                assert forall|x: usize|
                                    #[trigger] vis.contains(x) && !queue.items().contains(x) && x != u implies self.vertexs@[x as int].level->0 <= cur
                                        && forall|y: usize|
                                        #[trigger] t.is_edge(x, y) ==> vis.contains(y) && self.vertexs@[y as int].level->0
                                            <= self.vertexs@[x as int].level->0 + 1 by {
                                    if x == w {
                                        assert(queue.items()[q1.len() as int] == w);
                                    } else {
                                        assert(!q1.contains(x)) by {
                                            if q1.contains(x) {
                                                let i = choose|i: int| 0 <= i < q1.len() && q1[i] == x;
                                                assert(queue.items()[i] == x);
                                            }
                                        }
                                    }
                                }
                                assert forall|v: usize|
                                    #[trigger] vis.contains(v) && v != root implies exists|p: usize|
                                        #[trigger] t.is_edge(p, v) && vis.contains(p) && self.vertexs@[v as int].level->0
                                            == self.vertexs@[p as int].level->0 + 1 by {
                                    if v == w {
                                        assert(t.is_edge(u, w));
                                    } else {
                                        let p = choose|p: usize| #[trigger] t.is_edge(p, v) && old_vis.contains(p) && self.vertexs@[v as int].level->0
                                            == self.vertexs@[p as int].level->0 + 1;
                                        assert(t.is_edge(p, v));
                                    }
                                }
                            }
                        }
                        j += 1;
                    }
                    proof {
                        assert forall|y: usize| #[trigger] t.is_edge(u, y) implies vis.contains(y) && self.vertexs@[y as int].level->0
                            <= self.vertexs@[u as int].level->0 + 1 by {
                            let i = choose|i: int| 0 <= i < t.adj[u as int].len() && t.adj[u as int][i] == y;
                            assert(vis.contains(t.adj[u as int][i]));
                        }
                    }
                },
            }
        }
    }
}

} // verus!
