//! Properties of blind search, stated over the traversal model and proved.
use crate::containers::{next_index, without_next};
use crate::graph::Direction;
use crate::traversal::{passes, SearchConfig, SearchState, Topology};
use vstd::prelude::*;

verus! {

/// After `k` rounds of a search without generations or level limit, every
/// visited vertex that has left the frontier was visited in an earlier round
/// and has all its targets visited; the frontier holds no vertex twice.
spec fn settled(t: Topology, c: SearchConfig, k: nat) -> bool {
    let st = t.run(c, k);
    &&& st.frontier.no_duplicates()
    &&& forall|u: usize|
        #[trigger] st.visited.contains(u) && !st.frontier.contains(u) ==> (exists|i: nat|
            i < k && !t.done(c, i) && #[trigger] t.visit(c, i) == u) && forall|w: usize|
            #[trigger] t.is_edge(u, w) ==> st.visited.contains(w)
}

proof fn lemma_settled(t: Topology, c: SearchConfig, k: nat)
    requires
        t.wf(),
        c.start < t.n(),
        !c.iterative,
        c.limit is None,
    ensures
        settled(t, c, k),
    decreases k,
{
    if k == 0 {
        let st = t.run(c, 0);
        assert(st.frontier[0] == c.start);
        assert forall|u: usize| #[trigger] st.visited.contains(u) implies st.frontier.contains(u) by {}
    } else {
        let j = (k - 1) as nat;
        lemma_settled(t, c, j);
        t.lemma_run_inv(c, j);
        let st = t.run(c, j);
        if st.frontier.len() > 0 {
            let v = t.visit(c, j);
            let idx = next_index(st.frontier.len() as int, c.lifo());
            let rest = SearchState {
                frontier: without_next(st.frontier, c.lifo()),
                visited: st.visited,
                quota: st.quota,
                discovered: st.discovered,
            };
            assert forall|i: int| 0 <= i < rest.frontier.len() implies rest.visited.contains(
                #[trigger] rest.frontier[i],
            ) by {
                if c.lifo() {
                    assert(rest.frontier[i] == st.frontier[i]);
                } else {
                    assert(rest.frontier[i] == st.frontier[i + 1]);
                }
            }
            assert(st.visited.contains(st.frontier[idx]));
            let cands = t.order(v, c.direction);
            t.lemma_order_targets(c, v, c.direction);
            t.lemma_expand(c, rest, cands, cands.len());
            let st2 = t.run(c, k);
            assert(st2 == t.expand(c, rest, cands, cands.len()));
            assert(rest.frontier.no_duplicates()) by {
                assert forall|a: int, b: int|
                    0 <= a < rest.frontier.len() && 0 <= b < rest.frontier.len() && a != b implies rest.frontier[a]
                    != rest.frontier[b] by {
                    if c.lifo() {
                        assert(rest.frontier[a] == st.frontier[a] && rest.frontier[b] == st.frontier[b]);
                    } else {
                        assert(rest.frontier[a] == st.frontier[a + 1] && rest.frontier[b] == st.frontier[b
                            + 1]);
                    }
                }
            }
            // every target of `v` is now visited
            assert forall|w: usize| #[trigger] t.is_edge(v, w) implies st2.visited.contains(w) by {
                let i = choose|i: int| 0 <= i < t.adj[v as int].len() && t.adj[v as int][i] == w;
                let jx = match c.direction {
                    Direction::Right => i,
                    Direction::Left => t.adj[v as int].len() - 1 - i,
                };
                assert(cands[jx] == w);
                assert(t.level_ok(c.limit, cands[jx]));
            }
            assert forall|u: usize|
                #[trigger] st2.visited.contains(u) && !st2.frontier.contains(u) implies (exists|i: nat|
                i < k && !t.done(c, i) && #[trigger] t.visit(c, i) == u) && forall|w: usize|
                #[trigger] t.is_edge(u, w) ==> st2.visited.contains(w) by {
                if u == v {
                    assert(!t.done(c, j) && t.visit(c, j) == u);
                } else {
                    assert(st.visited.contains(u));
                    assert(!st.frontier.contains(u)) by {
                        if st.frontier.contains(u) {
                            let i = choose|i: int| 0 <= i < st.frontier.len() && st.frontier[i] == u;
                            let ri = if c.lifo() || i < idx {
                                i
                            } else {
                                i - 1
                            };
                            assert(i != idx);
                            assert(rest.frontier[ri] == u);
                            assert(st2.frontier.subrange(0, rest.frontier.len() as int)[ri] == u);
                            assert(st2.frontier[ri] == u);
                        }
                    }
                    let i = choose|i: nat| i < j && !t.done(c, i) && #[trigger] t.visit(c, i) == u;
                    assert(i < k && !t.done(c, i) && t.visit(c, i) == u);
                }
            }
        }
    }
}

proof fn lemma_ends_from(t: Topology, c: SearchConfig, j: nat) -> (k: nat)
    requires
        t.wf(),
        c.start < t.n(),
        forall|i: nat| i < j ==> !#[trigger] t.done(c, i),
    ensures
        j <= k,
        t.done(c, k),
        forall|i: nat| i < k ==> !#[trigger] t.done(c, i),
    decreases t.measure(t.run(c, j)).0, t.measure(t.run(c, j)).1,
{
    if t.done(c, j) {
        j
    } else {
        t.lemma_run_inv(c, j);
        t.lemma_step(c, t.run(c, j));
        assert(t.run(c, j + 1) == t.step(c, t.run(c, j)));
        lemma_ends_from(t, c, j + 1)
    }
}

/// Every search ends: some round finds the frontier empty, and the first
/// such round is returned.
pub proof fn lemma_search_ends(t: Topology, c: SearchConfig) -> (k: nat)
    requires
        t.wf(),
        c.start < t.n(),
    ensures
        t.done(c, k),
        forall|i: nat| i < k ==> !#[trigger] t.done(c, i),
{
    lemma_ends_from(t, c, 0)
}

/// A search without generations or level limit, breadth-first or
/// depth-first in either direction, visits exactly the vertices reachable
/// from its start before its frontier runs empty.
pub proof fn lemma_visits_reachable(t: Topology, c: SearchConfig, goal: usize)
    requires
        t.wf(),
        c.start < t.n(),
        !c.iterative,
        c.limit is None,
    ensures
        t.reachable(c.start, goal) <==> exists|i: nat| !t.done(c, i) && #[trigger] t.visit(c, i) == goal,
{
    if t.reachable(c.start, goal) {
        let k = lemma_search_ends(t, c);
        lemma_settled(t, c, k);
        t.lemma_run_inv(c, k);
        let st = t.run(c, k);
        assert forall|a: usize, b: usize| st.visited.contains(a) && #[trigger] t.is_edge(a, b) implies st.visited.contains(
            b,
        ) by {
            assert(!st.frontier.contains(a));
        }
        t.lemma_closed_holds_reachable(c.start, st.visited, goal);
        assert(!st.frontier.contains(goal));
    }
    if exists|i: nat| !t.done(c, i) && #[trigger] t.visit(c, i) == goal {
        let i = choose|i: nat| !t.done(c, i) && #[trigger] t.visit(c, i) == goal;
        t.lemma_run_inv(c, i);
        let st = t.run(c, i);
        assert(st.visited.contains(st.frontier[next_index(st.frontier.len() as int, c.lifo())]));
    }
}

/// With an action that asks to stop exactly on the goal and then hands back
/// a result, a search without generations or level limit returns a result
/// exactly when the goal is reachable from the start.
pub proof fn lemma_finds_goal_iff_reachable<R, F: Fn(usize, usize) -> (bool, Option<R>)>(
    t: Topology,
    c: SearchConfig,
    action: F,
    goal: usize,
    k: nat,
    r: Option<R>,
)
    requires
        t.wf(),
        c.start < t.n(),
        !c.iterative,
        c.limit is None,
        t.ends_at(c, action, goal, k, r),
        forall|v: usize, out: (bool, Option<R>)|
            #[trigger] action.ensures((v, goal), out) ==> out.0 == (v == goal) && (out.0 ==> out.1 is Some),
    ensures
        r is Some <==> t.reachable(c.start, goal),
{
    lemma_visits_reachable(t, c, goal);
    if t.reachable(c.start, goal) {
        let i = choose|i: nat| !t.done(c, i) && #[trigger] t.visit(c, i) == goal;
        if i < k {
            assert(passes::<R, F>(action, t.visit(c, i), goal));
            let res = choose|res: Option<R>| #[trigger] action.ensures((t.visit(c, i), goal), (false, res));
            assert(action.ensures((goal, goal), (false, res)));
        } else if t.done(c, k) {
            let k2 = k;
            assert(i > k2) by {
                if i == k2 {
                }
            }
            t.lemma_run_inv(c, k);
            lemma_done_stays(t, c, k, i);
        }
    } else {
        if !t.done(c, k) {
            assert(action.ensures((t.visit(c, k), goal), (true, r)));
            assert(t.visit(c, k) == goal);
        }
    }
}

/// Once the frontier is empty it stays empty.
proof fn lemma_done_stays(t: Topology, c: SearchConfig, k: nat, i: nat)
    requires
        t.done(c, k),
        k <= i,
    ensures
        t.done(c, i),
    decreases i - k,
{
    if k < i {
        lemma_done_stays(t, c, k, (i - 1) as nat);
    }
}

/// Under a level limit, every vertex that a search admits to its frontier,
/// and so every vertex it visits but the start, has a level within the limit.
pub proof fn lemma_limit_respected(t: Topology, c: SearchConfig, k: nat)
    requires
        t.wf(),
        c.start < t.n(),
        c.limit is Some,
    ensures
        forall|v: usize|
            #[trigger] t.run(c, k).visited.contains(v) && v != c.start ==> t.levels[v as int] is Some
                && t.levels[v as int]->0 <= c.limit->0,
        !t.done(c, k) && t.visit(c, k) != c.start ==> t.levels[t.visit(c, k) as int] is Some
            && t.levels[t.visit(c, k) as int]->0 <= c.limit->0,
    decreases k,
{
    t.lemma_run_inv(c, k);
    if k > 0 {
        let j = (k - 1) as nat;
        lemma_limit_respected(t, c, j);
        t.lemma_run_inv(c, j);
        let st = t.run(c, j);
        if st.frontier.len() > 0 && !(c.iterative && st.discovered == st.quota) {
            let v = t.visit(c, j);
            let idx = next_index(st.frontier.len() as int, c.lifo());
            let rest = SearchState {
                frontier: without_next(st.frontier, c.lifo()),
                visited: st.visited,
                quota: st.quota,
                discovered: st.discovered,
            };
            assert forall|i: int| 0 <= i < rest.frontier.len() implies rest.visited.contains(
                #[trigger] rest.frontier[i],
            ) by {
                if c.lifo() {
                    assert(rest.frontier[i] == st.frontier[i]);
                } else {
                    assert(rest.frontier[i] == st.frontier[i + 1]);
                }
            }
            assert(st.visited.contains(st.frontier[idx]));
            let cands = t.order(v, c.direction);
            t.lemma_order_targets(c, v, c.direction);
            t.lemma_expand(c, rest, cands, cands.len());
        } else if st.frontier.len() > 0 {
            assert(t.run(c, k).visited =~= set![c.start]);
        }
    }
    let st = t.run(c, k);
    if !t.done(c, k) {
        assert(st.visited.contains(st.frontier[next_index(st.frontier.len() as int, c.lifo())]));
    }
}

/// The `Left` direction examines each vertex's targets in exactly the
/// reverse of the `Right` order.
pub proof fn lemma_left_reverses_right(t: Topology, u: usize)
    ensures
        t.order(u, Direction::Left) == t.order(u, Direction::Right).reverse(),
{
}

/// Reversing the direction of a search without generations or level limit
/// does not change whether it visits the goal.
pub proof fn lemma_direction_keeps_outcome(t: Topology, c: SearchConfig, goal: usize)
    requires
        t.wf(),
        c.start < t.n(),
        !c.iterative,
        c.limit is None,
    ensures
        ({
            let cl = SearchConfig { direction: Direction::Left, ..c };
            let cr = SearchConfig { direction: Direction::Right, ..c };
            (exists|i: nat| !t.done(cl, i) && #[trigger] t.visit(cl, i) == goal) <==> (exists|i: nat|
                !t.done(cr, i) && #[trigger] t.visit(cr, i) == goal)
        }),
{
    let cl = SearchConfig { direction: Direction::Left, ..c };
    let cr = SearchConfig { direction: Direction::Right, ..c };
    lemma_visits_reachable(t, cl, goal);
    lemma_visits_reachable(t, cr, goal);
}

/// Two runs of a search with the same graph shape, parameters and goal, with
/// an action whose decision to stop depends only on its arguments, end in
/// the same round after visiting the same vertices in the same order.
pub proof fn lemma_repeat_same_visits<R, F: Fn(usize, usize) -> (bool, Option<R>)>(
    t: Topology,
    c: SearchConfig,
    action: F,
    goal: usize,
    k1: nat,
    r1: Option<R>,
    k2: nat,
    r2: Option<R>,
)
    requires
        t.ends_at(c, action, goal, k1, r1),
        t.ends_at(c, action, goal, k2, r2),
        forall|v: usize, a: (bool, Option<R>), b: (bool, Option<R>)|
            #[trigger] action.ensures((v, goal), a) && #[trigger] action.ensures((v, goal), b) ==> a.0 == b.0,
    ensures
        k1 == k2,
        t.visits(c, k1) == t.visits(c, k2),
{
    if k1 < k2 {
        assert(!t.done(c, k1));
        assert(passes::<R, F>(action, t.visit(c, k1), goal));
        let res = choose|res: Option<R>| #[trigger] action.ensures((t.visit(c, k1), goal), (false, res));
        assert(action.ensures((t.visit(c, k1), goal), (true, r1)));
    } else if k2 < k1 {
        assert(!t.done(c, k2));
        assert(passes::<R, F>(action, t.visit(c, k2), goal));
        let res = choose|res: Option<R>| #[trigger] action.ensures((t.visit(c, k2), goal), (false, res));
        assert(action.ensures((t.visit(c, k2), goal), (true, r2)));
    }
}

/// Depth-first search explores the branch it has just pushed before anything
/// older: after round `k` expands a vertex, the frontier entries below it stay
/// untouched for as long as the frontier keeps more than them.
pub proof fn lemma_depth_first_branch(t: Topology, c: SearchConfig, k: nat, j: nat)
    requires
        t.wf(),
        c.start < t.n(),
        c.lifo(),
        !c.iterative,
        !t.done(c, k),
        k < j,
        forall|m: nat|
            k < m < j ==> #[trigger] t.run(c, m).frontier.len() >= t.run(c, k).frontier.len(),
    ensures
        t.run(c, j).frontier.len() >= t.run(c, k).frontier.len() - 1,
        t.run(c, j).frontier.subrange(0, t.run(c, k).frontier.len() - 1) == t.run(c, k).frontier.subrange(
            0,
            t.run(c, k).frontier.len() - 1,
        ),
    decreases j - k,
{
    let b = t.run(c, k).frontier.len() - 1;
    let p = (j - 1) as nat;
    if p > k {
        lemma_depth_first_branch(t, c, k, p);
    }
    t.lemma_run_inv(c, p);
    let st = t.run(c, p);
    assert(st.frontier.len() > b);
    assert(st.frontier.subrange(0, b) == t.run(c, k).frontier.subrange(0, b));
    let v = t.visit(c, p);
    let idx = next_index(st.frontier.len() as int, c.lifo());
    let rest = SearchState {
        frontier: without_next(st.frontier, c.lifo()),
        visited: st.visited,
        quota: st.quota,
        discovered: st.discovered,
    };
    assert forall|i: int| 0 <= i < rest.frontier.len() implies rest.visited.contains(
        #[trigger] rest.frontier[i],
    ) by {
        assert(rest.frontier[i] == st.frontier[i]);
    }
    assert(st.visited.contains(st.frontier[idx]));
    let cands = t.order(v, c.direction);
    t.lemma_order_targets(c, v, c.direction);
    t.lemma_expand(c, rest, cands, cands.len());
    let st2 = t.run(c, j);
    assert(st2 == t.expand(c, rest, cands, cands.len()));
    assert(st2.frontier.subrange(0, b) =~= st2.frontier.subrange(0, rest.frontier.len() as int).subrange(
        0,
        b,
    ));
    assert(rest.frontier.subrange(0, b) =~= st.frontier.subrange(0, b));
}

/// The frontier of a breadth-first search is ordered by level, and spans at
/// most two consecutive levels.
spec fn level_sorted(t: Topology, c: SearchConfig, k: nat) -> bool {
    let f = t.run(c, k).frontier;
    &&& forall|a: int, b: int|
        0 <= a < b < f.len() ==> t.levels[f[a] as int]->0 <= t.levels[f[b] as int]->0
    &&& forall|a: int| 0 <= a < f.len() ==> t.levels[#[trigger] f[a] as int]->0 <= t.levels[f[0] as int]->0 + 1
}

/// While a breadth-first search runs, every reachable vertex whose level is at
/// most that of the frontier's head is already visited.
proof fn lemma_lower_levels_visited(t: Topology, c: SearchConfig, k: nat, x: usize)
    requires
        t.wf(),
        c.start < t.n(),
        !c.iterative,
        c.limit is None,
        t.layered(c.start, t.levels),
        t.inv(c, t.run(c, k)),
        settled(t, c, k),
        level_sorted(t, c, k),
        !t.done(c, k),
        x < t.n(),
        t.reachable(c.start, x),
        t.levels[x as int]->0 <= t.levels[t.run(c, k).frontier[0] as int]->0,
    ensures
        t.run(c, k).visited.contains(x),
    decreases t.levels[x as int]->0,
{
    let st = t.run(c, k);
    if x != c.start {
        let p = choose|p: usize|
            #[trigger] t.is_edge(p, x) && t.reachable(c.start, p) && t.levels[x as int]->0 == t.levels[p as int]->0
                + 1;
        lemma_lower_levels_visited(t, c, k, p);
        assert(!st.frontier.contains(p)) by {
            if st.frontier.contains(p) {
                let a = choose|a: int| 0 <= a < st.frontier.len() && st.frontier[a] == p;
                if a > 0 {
                    assert(t.levels[st.frontier[0] as int]->0 <= t.levels[st.frontier[a] as int]->0);
                }
            }
        }
    }
}

proof fn lemma_level_sorted(t: Topology, c: SearchConfig, k: nat)
    requires
        t.wf(),
        c.start < t.n(),
        !c.lifo(),
        !c.iterative,
        c.limit is None,
        t.layered(c.start, t.levels),
    ensures
        level_sorted(t, c, k),
        k > 0 && !t.done(c, k) ==> t.levels[t.visit(c, (k - 1) as nat) as int]->0 <= t.levels[t.visit(c, k) as int]->0,
    decreases k,
{
    if k > 0 {
        let j = (k - 1) as nat;
        lemma_level_sorted(t, c, j);
        lemma_settled(t, c, j);
        t.lemma_run_inv(c, j);
        let st = t.run(c, j);
        if st.frontier.len() > 0 {
            let v = t.visit(c, j);
            assert(v == st.frontier[0]);
            let rest = SearchState {
                frontier: without_next(st.frontier, c.lifo()),
                visited: st.visited,
                quota: st.quota,
                discovered: st.discovered,
            };
            assert forall|i: int| 0 <= i < rest.frontier.len() implies rest.visited.contains(
                #[trigger] rest.frontier[i],
            ) by {
                assert(rest.frontier[i] == st.frontier[i + 1]);
            }
            assert(st.visited.contains(st.frontier[0]));
            let cands = t.order(v, c.direction);
            t.lemma_order_targets(c, v, c.direction);
            t.lemma_expand(c, rest, cands, cands.len());
            let f = t.run(c, k).frontier;
            assert(t.run(c, k) == t.expand(c, rest, cands, cands.len()));
            let lv = t.levels[v as int]->0;
            // the old entries lie between the head's level and one above it
            assert forall|a: int| 0 <= a < rest.frontier.len() implies lv <= t.levels[#[trigger] f[a] as int]->0
                <= lv + 1 by {
                assert(f[a] == rest.frontier[a]);
                assert(rest.frontier[a] == st.frontier[a + 1]);
                assert(t.levels[st.frontier[a + 1] as int]->0 <= t.levels[st.frontier[0] as int]->0 + 1);
            }
            // the new entries are one level below the head's
            assert forall|a: int| rest.frontier.len() <= a < f.len() implies t.levels[#[trigger] f[a] as int]->0
                == lv + 1 by {
                let w = f[a];
                assert(!st.visited.contains(w));
                assert(cands.contains(w));
                let i = choose|i: int| 0 <= i < cands.len() && cands[i] == w;
                assert(t.is_edge(v, w)) by {
                    let ix = match c.direction {
                        Direction::Right => i,
                        Direction::Left => t.adj[v as int].len() - 1 - i,
                    };
                    assert(t.adj[v as int][ix] == w);
                }
                assert(st.visited.contains(v));
                assert(t.reachable(c.start, v));
                assert(w < t.n() && t.reachable(c.start, w));
                if t.levels[w as int]->0 <= lv {
                    lemma_lower_levels_visited(t, c, j, w);
                }
            }
            if f.len() > 0 {
                assert(level_sorted(t, c, k)) by {
                    assert forall|a: int, b: int|
                        0 <= a < b < f.len() implies t.levels[f[a] as int]->0 <= t.levels[f[b] as int]->0 by {
                        if b < rest.frontier.len() {
                            assert(f.subrange(0, rest.frontier.len() as int)[a] == f[a]);
                            assert(f.subrange(0, rest.frontier.len() as int)[b] == f[b]);
                            assert(f[a] == rest.frontier[a] && f[b] == rest.frontier[b]);
                            assert(rest.frontier[a] == st.frontier[a + 1]);
                            assert(rest.frontier[b] == st.frontier[b + 1]);
                            assert(t.levels[st.frontier[a + 1] as int]->0 <= t.levels[st.frontier[b + 1] as int]->0);
                        } else if a < rest.frontier.len() {
                            assert(lv <= t.levels[f[a] as int]->0 <= lv + 1);
                            assert(t.levels[f[b] as int]->0 == lv + 1);
                        } else {
                            assert(t.levels[f[a] as int]->0 == lv + 1);
                            assert(t.levels[f[b] as int]->0 == lv + 1);
                        }
                    }
                    assert forall|a: int| 0 <= a < f.len() implies t.levels[#[trigger] f[a] as int]->0 <= t.levels[f[0] as int]->0
                        + 1 by {
                        if 0 < rest.frontier.len() {
                            assert(lv <= t.levels[f[0] as int]->0);
                        } else {
                            assert(t.levels[f[0] as int]->0 == lv + 1);
                        }
                        if a < rest.frontier.len() {
                            assert(t.levels[f[a] as int]->0 <= lv + 1);
                        } else {
                            assert(t.levels[f[a] as int]->0 == lv + 1);
                        }
                    }
                }
                assert(t.visit(c, k) == f[0]);
                if 0 < rest.frontier.len() {
                    assert(lv <= t.levels[f[0] as int]->0);
                } else {
                    assert(t.levels[f[0] as int]->0 == lv + 1);
                }
            }
        }
    }
}

/// When the levels come from breadth-first layering from the start, a
/// breadth-first search without generations or level limit visits vertices in
/// order of non-decreasing level.
pub proof fn lemma_breadth_first_level_order(t: Topology, c: SearchConfig, i: nat, j: nat)
    requires
        t.wf(),
        c.start < t.n(),
        !c.lifo(),
        !c.iterative,
        c.limit is None,
        t.layered(c.start, t.levels),
        i <= j,
        !t.done(c, j),
    ensures
        t.levels[t.visit(c, i) as int]->0 <= t.levels[t.visit(c, j) as int]->0,
    decreases j - i,
{
    if i < j {
        let p = (j - 1) as nat;
        if t.done(c, p) {
            lemma_done_stays(t, c, p, j);
        }
        lemma_breadth_first_level_order(t, c, i, p);
        lemma_level_sorted(t, c, j);
    }
}

} // verus!
