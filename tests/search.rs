use graph_search::graph::{BlindSearch, Direction, Graph, HeuristicSearch};
use graph_search::vertexs::{NonWeightedAdjacency, Vertex};
use std::cell::RefCell;

type G = Graph<usize, NonWeightedAdjacency>;

/// A graph whose vertex `i` holds `i + 1` and has records to the vertices
/// listed in `edges[i]`, in that order.
fn graph_of(edges: &[&[usize]]) -> G {
    let mut vertices = Vec::new();
    for (i, targets) in edges.iter().enumerate() {
        let mut v = Vertex::new(i + 1);
        v.add_adjacencies(targets.iter().map(|&t| NonWeightedAdjacency::new(t)).collect());
        vertices.push(v);
    }
    Graph::new("g".to_string(), vertices)
}

/// Vertex `i` of four has records to `i + 1`, `i + 2` and `i + 3` where they exist.
fn chain_of_four() -> G {
    graph_of(&[&[1, 2, 3], &[2, 3], &[3], &[]])
}

/// Runs a search that stops on `seek`, returning its result and the visited vertices.
fn search(
    g: &G,
    algorithm: BlindSearch,
    direction: Direction,
    start: usize,
    seek: usize,
    limit: Option<usize>,
    iterative: bool,
) -> (Option<usize>, Vec<usize>) {
    let seen = RefCell::new(Vec::new());
    let r = g.blind_search(algorithm, direction, start, seek, limit, iterative, |cur: usize, goal: usize| {
        seen.borrow_mut().push(cur);
        if cur == goal {
            (true, Some(cur))
        } else {
            (false, None)
        }
    });
    (r, seen.into_inner())
}

#[test]
fn bfs_reversed_chain_finds_last_on_second_visit() {
    let g = chain_of_four();
    let (r, seen) = search(&g, BlindSearch::BreadthFirstSearch, Direction::Left, 0, 3, None, false);
    assert_eq!(r, Some(3));
    assert_eq!(seen, vec![0, 3]);
}

#[test]
fn bfs_forward_chain_visits_in_stored_order() {
    let g = chain_of_four();
    let (r, seen) = search(&g, BlindSearch::BreadthFirstSearch, Direction::Right, 0, 3, None, false);
    assert_eq!(r, Some(3));
    assert_eq!(seen, vec![0, 1, 2, 3]);
}

#[test]
fn dfs_forward_takes_newest_first() {
    let g = chain_of_four();
    let (r, seen) = search(&g, BlindSearch::DepthFirstSearch, Direction::Right, 0, 3, None, false);
    assert_eq!(r, Some(3));
    assert_eq!(seen, vec![0, 3]);
}

#[test]
fn dfs_reversed_takes_first_record_first() {
    let g = chain_of_four();
    let (r, seen) = search(&g, BlindSearch::DepthFirstSearch, Direction::Left, 0, 3, None, false);
    assert_eq!(r, Some(3));
    assert_eq!(seen, vec![0, 1, 2, 3]);
}

#[test]
fn dfs_explores_first_branch_to_exhaustion() {
    // 0 -> [1, 4], 1 -> [2], 2 -> [3]: the branch under 1 ends before 4
    let g = graph_of(&[&[1, 4], &[2], &[3], &[], &[]]);
    let (r, seen) = search(&g, BlindSearch::DepthFirstSearch, Direction::Left, 0, 99, None, false);
    assert_eq!(r, None);
    assert_eq!(seen, vec![0, 1, 2, 3, 4]);
}

#[test]
fn unreachable_goal_is_not_found_after_all_reachable() {
    let g = graph_of(&[&[1], &[0], &[0]]);
    for algorithm in [BlindSearch::BreadthFirstSearch, BlindSearch::DepthFirstSearch] {
        let (r, seen) = search(&g, algorithm, Direction::Right, 0, 2, None, false);
        assert_eq!(r, None);
        assert_eq!(seen, vec![0, 1]);
    }
}

#[test]
fn reachable_goal_found_by_both_algorithms_and_directions() {
    let g = graph_of(&[&[1, 2], &[3], &[3, 0], &[4], &[]]);
    for algorithm in [BlindSearch::BreadthFirstSearch, BlindSearch::DepthFirstSearch] {
        for direction in [Direction::Left, Direction::Right] {
            let (r, seen) = search(&g, algorithm, direction, 0, 4, None, false);
            assert_eq!(r, Some(4));
            assert_eq!(seen.last(), Some(&4));
        }
    }
}

#[test]
fn direction_changes_order_not_outcome() {
    let g = graph_of(&[&[1, 2, 3], &[], &[], &[]]);
    let (r1, s1) = search(&g, BlindSearch::BreadthFirstSearch, Direction::Right, 0, 9, None, false);
    let (r2, s2) = search(&g, BlindSearch::BreadthFirstSearch, Direction::Left, 0, 9, None, false);
    assert_eq!(r1, None);
    assert_eq!(r2, None);
    assert_eq!(s1, vec![0, 1, 2, 3]);
    assert_eq!(s2, vec![0, 3, 2, 1]);
}

#[test]
fn repeated_search_visits_the_same_vertices() {
    let g = graph_of(&[&[2, 1], &[3, 0], &[3], &[1, 4], &[]]);
    let first = search(&g, BlindSearch::DepthFirstSearch, Direction::Right, 0, 4, None, false);
    let second = search(&g, BlindSearch::DepthFirstSearch, Direction::Right, 0, 4, None, false);
    assert_eq!(first, second);
    assert_eq!(first.0, Some(4));
}

#[test]
fn stop_without_result_returns_none() {
    let g = chain_of_four();
    let r: Option<u8> =
        g.blind_search(BlindSearch::BreadthFirstSearch, Direction::Right, 0, 0, None, false, |c: usize, s: usize| {
            (c == s, None)
        });
    assert_eq!(r, None);
}

#[test]
fn action_result_is_returned() {
    let g = chain_of_four();
    let r = g.blind_search(BlindSearch::BreadthFirstSearch, Direction::Right, 0, 2, None, false, |c: usize, s: usize| {
        (c == s, Some(c * 10 + 7))
    });
    assert_eq!(r, Some(27));
}

#[test]
fn cycle_does_not_loop() {
    let g = graph_of(&[&[1], &[0, 1]]);
    let (r, seen) = search(&g, BlindSearch::BreadthFirstSearch, Direction::Right, 0, 7, None, false);
    assert_eq!(r, None);
    assert_eq!(seen, vec![0, 1]);
}

#[test]
fn set_lvls_layers_breadth_first() {
    let mut g = graph_of(&[&[1, 2], &[3], &[3, 0], &[4], &[], &[0]]);
    g.set_lvls(0);
    let levels: Vec<Option<usize>> = (0..6).map(|i| g.get(i).unwrap().level).collect();
    assert_eq!(levels, vec![Some(1), Some(2), Some(2), Some(3), Some(4), None]);
}

#[test]
fn set_lvls_keeps_levels_of_unreachable_vertices() {
    let mut g = graph_of(&[&[1], &[], &[0], &[2]]);
    g.set_lvls(3);
    assert_eq!(g.get(0).unwrap().level, Some(3));
    g.set_lvls(1);
    let levels: Vec<Option<usize>> = (0..4).map(|i| g.get(i).unwrap().level).collect();
    assert_eq!(levels, vec![Some(3), Some(1), Some(2), Some(1)]);
}

#[test]
fn set_lvls_on_chain_of_four() {
    let mut g = chain_of_four();
    g.set_lvls(0);
    let levels: Vec<Option<usize>> = (0..4).map(|i| g.get(i).unwrap().level).collect();
    assert_eq!(levels, vec![Some(1), Some(2), Some(2), Some(2)]);
}

#[test]
fn bfs_after_set_lvls_visits_by_level() {
    let mut g = graph_of(&[&[3, 1], &[2], &[4], &[5], &[], &[4]]);
    g.set_lvls(0);
    let (_, seen) = search(&g, BlindSearch::BreadthFirstSearch, Direction::Left, 0, 99, None, false);
    let levels: Vec<usize> = seen.iter().map(|&v| g.get(v).unwrap().level.unwrap()).collect();
    assert_eq!(seen, vec![0, 1, 3, 2, 5, 4]);
    assert_eq!(levels, vec![1, 2, 2, 3, 3, 4]);
}

#[test]
fn level_limit_keeps_deeper_vertices_out() {
    let mut g = graph_of(&[&[1], &[2], &[3], &[]]);
    g.set_lvls(0);
    let (r, seen) = search(&g, BlindSearch::BreadthFirstSearch, Direction::Right, 0, 3, Some(2), false);
    assert_eq!(r, None);
    assert_eq!(seen, vec![0, 1]);
    let (r, seen) = search(&g, BlindSearch::DepthFirstSearch, Direction::Right, 0, 3, Some(4), false);
    assert_eq!(r, Some(3));
    assert_eq!(seen, vec![0, 1, 2, 3]);
}

#[test]
fn level_limit_of_one_admits_nothing() {
    let mut g = chain_of_four();
    g.set_lvls(0);
    let (r, seen) = search(&g, BlindSearch::BreadthFirstSearch, Direction::Right, 0, 3, Some(1), false);
    assert_eq!(r, None);
    assert_eq!(seen, vec![0]);
}

#[test]
fn iterative_search_restarts_in_widening_generations() {
    let g = graph_of(&[&[1], &[2], &[]]);
    let (r, seen) = search(&g, BlindSearch::BreadthFirstSearch, Direction::Right, 0, 2, None, true);
    assert_eq!(r, Some(2));
    assert_eq!(seen, vec![0, 0, 1, 0, 1, 2]);
}

#[test]
fn iterative_search_ends_when_a_generation_runs_dry() {
    let g = graph_of(&[&[1], &[2], &[]]);
    let (r, seen) = search(&g, BlindSearch::DepthFirstSearch, Direction::Right, 0, 9, None, true);
    assert_eq!(r, None);
    assert_eq!(seen, vec![0, 0, 1, 0, 1, 2, 0, 1, 2]);
}

#[test]
fn iterative_search_on_chain_of_four() {
    let g = chain_of_four();
    let (r, seen) = search(&g, BlindSearch::BreadthFirstSearch, Direction::Left, 0, 3, None, true);
    assert_eq!(r, Some(3));
    assert_eq!(seen, vec![0, 0, 3]);
}

#[test]
fn graph_get_and_label() {
    let g = chain_of_four();
    assert_eq!(g.label, "g");
    assert_eq!(g.get(2).unwrap().value, 3);
    assert!(g.get(4).is_none());
}

#[test]
fn labels_name_the_variants() {
    assert_eq!(Direction::Left.label(), "Izquierda");
    assert_eq!(Direction::Right.label(), "Derecha");
    assert_eq!(BlindSearch::BreadthFirstSearch.label(), "BFS");
    assert_eq!(BlindSearch::DepthFirstSearch.label(), "DFS");
    assert_eq!(HeuristicSearch::AStar.label(), "A*");
    assert_eq!(HeuristicSearch::HillClimbing.label(), "HillClimbing");
}
