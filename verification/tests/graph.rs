use aoc25::graph::Graph;
use aoc25::graph_algo::search::SearchMode;
use glam::DVec2;

#[test]
fn test_node_retrieval() {
    let mut g: Graph<u32, ()> = Graph::new();
    let i1 = g.add_node(4);

    assert_eq!(g.get_node(i1), Some(&4));
    assert_eq!(g.num_nodes(), 1);
}

#[test]
fn test_edge_retrieval() {
    let mut g: Graph<(), u32> = Graph::new();
    let i1 = g.add_node(());
    let i2 = g.add_node(());

    g.add_edge(i1, i2, 5);

    assert_eq!(g.get_edge(i1, i2), Some(&5));
    assert_eq!(g.get_edge(i2, i1), Some(&5));

    let prev = g.add_edge(i2, i1, 7);
    assert_eq!(prev, Some(5));
    assert_eq!(g.get_edge(i1, i2), Some(&7));

    assert_eq!(g.num_nodes(), 2);
    assert_eq!(g.num_edges(), 1);
}

#[test]
fn test_node_removal() {
    let mut g: Graph<u32, u32> = Graph::new();
    let i1 = g.add_node(4);
    let i2 = g.add_node(5);

    g.add_edge(i1, i2, 1);

    assert_eq!(g.num_nodes(), 2);
    assert_eq!(g.num_edges(), 1);

    let data = g.remove_node(i1);

    assert_eq!(data, Some(4));

    assert_eq!(g.num_nodes(), 1);
    assert_eq!(g.num_edges(), 0);
}

#[test]
fn test_edge_removal() {
    let mut g: Graph<(), u32> = Graph::new();
    let i1 = g.add_node(());
    let i2 = g.add_node(());

    g.add_edge(i1, i2, 5);

    assert_eq!(g.num_edges(), 1);

    let data = g.remove_edge(i1, i2);

    assert_eq!(data, Some(5));

    assert_eq!(g.num_nodes(), 2);
    assert_eq!(g.num_edges(), 0);
}

#[test]
fn test_neighbors() {
    let mut g: Graph<u32, u32> = Graph::new();
    let i1 = g.add_node(1);
    let i2 = g.add_node(2);
    let i3 = g.add_node(3);

    g.add_edge(i2, i1, 11);
    g.add_edge(i2, i3, 12);
    g.add_edge(i1, i3, 13);

    let neighbors: Vec<_> = g.neighbors(i2);

    assert_eq!(neighbors.len(), 2);

    assert_eq!(neighbors[0], (i1, &11));
    assert_eq!(neighbors[1], (i3, &12));
}

#[test]
fn test_visit_bfs() {
    let mut g: Graph<u32, ()> = Graph::new();

    for i in 0..5 {
        g.add_node(i);
    }

    g.add_edge(0, 1, ());
    g.add_edge(1, 2, ());
    g.add_edge(0, 3, ());
    g.add_edge(0, 4, ());

    let nodes: Vec<_> = g
        .visit(0, SearchMode::BreadthFirst)
        .into_iter()
        .map(|(_, node)| node)
        .copied()
        .collect();
    assert_eq!(nodes, vec![0, 1, 3, 4, 2])
}

#[test]
fn test_visit_dfs() {
    let mut g: Graph<u32, ()> = Graph::new();

    for i in 0..5 {
        g.add_node(i);
    }

    g.add_edge(0, 1, ());
    g.add_edge(1, 2, ());
    g.add_edge(0, 3, ());
    g.add_edge(2, 4, ());

    let nodes: Vec<_> = g
        .visit(0, SearchMode::DepthFirst)
        .into_iter()
        .map(|(_, node)| node)
        .copied()
        .collect();
    assert_eq!(nodes, vec![0, 3, 1, 2, 4])
}

#[test]
fn test_search_bfs() {
    let mut g: Graph<(), ()> = Graph::new();

    for _ in 0..10 {
        g.add_node(());
    }

    g.add_edge(0, 1, ());
    g.add_edge(1, 2, ());
    g.add_edge(2, 3, ());
    g.add_edge(3, 4, ());

    let path = g
        .search(0, 4, SearchMode::BreadthFirst)
        .expect("should be a path");

    assert_eq!(path, vec![0, 1, 2, 3, 4]);

    g.add_edge(1, 4, ());
    let path = g
        .search(0, 4, SearchMode::BreadthFirst)
        .expect("should be a path");
    assert_eq!(path, vec![0, 1, 4]);

    assert_eq!(g.search(2, 8, SearchMode::BreadthFirst), None);
}

#[test]
fn test_dijkstra() {
    let mut g: Graph<(), u64> = Graph::new();

    for _ in 0..10 {
        g.add_node(());
    }

    g.add_edge(0, 1, 2);
    g.add_edge(1, 2, 2);
    g.add_edge(2, 3, 2);
    g.add_edge(3, 4, 2);
    g.add_edge(0, 4, 10);

    let result = g.dijkstra(0, 4);
    assert_eq!(result, Some((8, vec![0, 1, 2, 3, 4])));

    g.add_edge(2, 3, 6);
    let result = g.dijkstra(0, 4);
    assert_eq!(result, Some((10, vec![0, 4])));
}

#[test]
fn dijkstra_test_dijkstra_no_path() {
    let mut g: Graph<(), u64> = Graph::new();
    for _ in 0..10 {
        g.add_node(());
    }

    g.add_edge(0, 1, 2);
    g.add_edge(1, 2, 2);

    assert_eq!(g.dijkstra(4, 8), None);
}

#[test]
fn astar_test_dijkstra_no_path() {
    let mut g: Graph<(), u64> = Graph::new();
    for _ in 0..10 {
        g.add_node(());
    }

    g.add_edge(0, 1, 2);
    g.add_edge(1, 2, 2);

    assert_eq!(g.dijkstra(4, 8), None);
}

#[test]
fn test_astar() {
    let mut g: Graph<DVec2, ()> = Graph::new();

    g.add_node(DVec2::new(0.0, 0.0));
    g.add_node(DVec2::new(1.0, 1.0));
    g.add_node(DVec2::new(0.0, 1.0));
    g.add_node(DVec2::new(-1.0, 1.0));
    g.add_node(DVec2::new(2.0, 0.0));
    g.add_node(DVec2::new(6.0, 0.0));

    g.add_edge(0, 1, ());
    g.add_edge(1, 2, ());
    g.add_edge(2, 3, ());
    g.add_edge(3, 4, ());
    g.add_edge(1, 4, ());

    let target = *g.get_node(4).unwrap();
    // The bits of a float that is not negative grow with the float.
    let heuristic = move |node: &DVec2, _: &()| (*node - target).length().to_bits();
    let result = g.astar(0, 4, heuristic);
    assert_eq!(result, Some(vec![0, 1, 4]));

    let result = g.astar(5, 4, heuristic);
    assert_eq!(result, None)
}

fn ring_with_chord() -> Graph<u32, u64> {
    // 0 - 1 - 2 - 3 - 4 - 5 - 0, and 1 - 4; node 6 stands alone.
    let mut g: Graph<u32, u64> = Graph::new();
    for i in 0..7 {
        g.add_node(i * 10);
    }
    g.add_edge(0, 1, 4);
    g.add_edge(1, 2, 1);
    g.add_edge(2, 3, 1);
    g.add_edge(3, 4, 1);
    g.add_edge(4, 5, 9);
    g.add_edge(5, 0, 1);
    g.add_edge(1, 4, 7);
    g
}

#[test]
fn setting_an_edge_again_changes_its_value_only() {
    let mut g: Graph<(), u32> = Graph::new();
    let a = g.add_node(());
    let b = g.add_node(());
    assert_eq!(g.add_edge(a, b, 5), None);
    assert_eq!(g.add_edge(a, b, 5), Some(5));
    assert_eq!(g.get_edge(a, b), Some(&5));
    assert_eq!(g.num_edges(), 1);
    assert_eq!(g.add_edge(b, a, 6), Some(5));
    assert_eq!(g.get_edge(a, b), Some(&6));
    assert_eq!(g.num_edges(), 1);
    assert!(g.are_neighbors(b, a));
    assert!(!g.are_neighbors(a, a));
}

#[test]
fn removing_a_node_takes_its_edges_and_keeps_the_rest() {
    let mut g = ring_with_chord();
    assert_eq!(g.remove_node(1), Some(10));
    assert_eq!(g.remove_node(1), None);
    assert_eq!(g.num_nodes(), 6);
    assert_eq!(g.num_edges(), 4);
    assert_eq!(g.get_edge(0, 1), None);
    assert_eq!(g.get_edge(1, 4), None);
    assert_eq!(g.get_edge(4, 5), Some(&9));
    assert_eq!(g.get_node(2), Some(&20));
    assert_eq!(g.neighbors(1), vec![]);
    let ids: Vec<usize> = g.nodes().into_iter().map(|n| n.0).collect();
    assert_eq!(ids, vec![0, 2, 3, 4, 5, 6]);
    let keys: Vec<(usize, usize)> = g.edges().into_iter().map(|e| e.0).collect();
    assert_eq!(keys, vec![(0, 5), (2, 3), (3, 4), (4, 5)]);
}

#[test]
fn an_identifier_is_handed_out_once() {
    let mut g: Graph<char, ()> = Graph::new();
    assert_eq!(g.add_node('a'), 0);
    assert_eq!(g.add_node('b'), 1);
    assert_eq!(g.add_node('c'), 2);
    assert_eq!(g.remove_node(0), Some('a'));
    assert_eq!(g.num_nodes(), 2);
    assert_eq!(g.add_node('d'), 3);
    assert_eq!(g.id_bound(), 4);
    assert_eq!(g.get_node(2), Some(&'c'));
    assert_eq!(g.get_node(0), None);
}

#[test]
fn an_edge_may_join_what_is_no_node() {
    let mut g: Graph<(), u8> = Graph::new();
    assert_eq!(g.add_edge(3, 1, 9), None);
    assert_eq!(g.get_edge(1, 3), Some(&9));
    assert_eq!(g.num_nodes(), 0);
    assert_eq!(g.remove_edge(1, 3), Some(9));
    assert_eq!(g.remove_edge(1, 3), None);
}

#[test]
fn edge_values_along_a_path() {
    let g = ring_with_chord();
    assert_eq!(g.get_edges(&[0, 1, 4, 3, 0]), vec![Some(&4), Some(&7), Some(&1), None]);
    assert_eq!(g.get_edges(&[2]), vec![]);
    assert_eq!(g.get_edges(&[]), vec![]);
}

#[test]
fn an_edge_made_of_the_values_of_its_ends() {
    let mut g: Graph<u32, u32> = Graph::new();
    let a = g.add_node(3);
    let b = g.add_node(4);
    assert_eq!(g.add_edge_map(a, b, |x, y| x * 10 + y), None);
    assert_eq!(g.get_edge(a, b), Some(&34));
    assert_eq!(g.add_edge_map(b, a, |x, y| x * 10 + y), Some(34));
    assert_eq!(g.get_edge(a, b), Some(&43));
    assert_eq!(g.add_edge_map(a, 7, |x, y| x + y), None);
    assert_eq!(g.num_edges(), 1);
}

#[test]
fn breadth_first_is_no_longer_than_depth_first() {
    let g = ring_with_chord();
    for a in 0..6 {
        for b in 0..6 {
            let wide = g.search(a, b, SearchMode::BreadthFirst).unwrap();
            let deep = g.search(a, b, SearchMode::DepthFirst).unwrap();
            assert!(wide.len() <= deep.len());
            assert_eq!((wide[0], *wide.last().unwrap()), (a, b));
            assert_eq!((deep[0], *deep.last().unwrap()), (a, b));
            for pair in deep.windows(2) {
                assert!(g.are_neighbors(pair[0], pair[1]));
            }
        }
    }
    assert_eq!(g.search(0, 3, SearchMode::BreadthFirst), Some(vec![0, 1, 2, 3]));
    assert_eq!(g.search(0, 3, SearchMode::DepthFirst), Some(vec![0, 5, 4, 3]));
    assert_eq!(g.search(2, 2, SearchMode::DepthFirst), Some(vec![2]));
    assert_eq!(g.search(0, 6, SearchMode::DepthFirst), None);
    assert_eq!(g.search(9, 9, SearchMode::BreadthFirst), Some(vec![9]));
    assert_eq!(g.search(9, 0, SearchMode::BreadthFirst), None);
}

#[test]
fn a_visit_comes_to_each_node_in_reach_once() {
    let g = ring_with_chord();
    for mode in [SearchMode::BreadthFirst, SearchMode::DepthFirst] {
        let mut ids: Vec<usize> = g.visit(2, mode).into_iter().map(|n| n.0).collect();
        ids.sort();
        assert_eq!(ids, vec![0, 1, 2, 3, 4, 5]);
    }
    let alone: Vec<(usize, &u32)> = g.visit(6, SearchMode::BreadthFirst);
    assert_eq!(alone, vec![(6, &60)]);
}

#[test]
fn a_visit_ends_before_what_is_no_node() {
    let mut g = ring_with_chord();
    g.remove_node(2);
    g.add_edge(1, 2, 1);
    let ids: Vec<usize> = g.visit(0, SearchMode::BreadthFirst).into_iter().map(|n| n.0).collect();
    assert_eq!(ids, vec![0, 1, 5]);
}

fn cheapest_by_trying_all(g: &Graph<u32, u64>, from: usize, to: usize) -> Option<u64> {
    fn go(g: &Graph<u32, u64>, at: usize, to: usize, seen: &mut Vec<usize>, cost: u64, best: &mut Option<u64>) {
        if at == to {
            *best = Some(best.map_or(cost, |b| b.min(cost)));
            return;
        }
        for (next, weight) in g.neighbors(at) {
            if !seen.contains(&next) {
                seen.push(next);
                go(g, next, to, seen, cost + *weight, best);
                seen.pop();
            }
        }
    }
    let mut best = None;
    go(g, from, to, &mut vec![from], 0, &mut best);
    best
}

#[test]
fn dijkstra_finds_what_trying_all_ways_finds() {
    let g = ring_with_chord();
    for a in 0..7 {
        for b in 0..7 {
            let found = g.dijkstra(a, b);
            assert_eq!(found.as_ref().map(|f| f.0), cheapest_by_trying_all(&g, a, b));
            if let Some((cost, path)) = found {
                assert_eq!((path[0], *path.last().unwrap()), (a, b));
                let along: u64 = g.get_edges(&path).into_iter().map(|w| *w.unwrap()).sum();
                assert_eq!(along, cost);
            }
        }
    }
    assert_eq!(g.dijkstra(0, 4), Some((7, vec![0, 1, 2, 3, 4])));
    assert_eq!(g.dijkstra(3, 3), Some((0, vec![3])));
}

#[test]
fn two_nodes_at_one_cost_both_stay_pending() {
    let mut g: Graph<(), u64> = Graph::new();
    for _ in 0..4 {
        g.add_node(());
    }
    g.add_edge(0, 1, 1);
    g.add_edge(0, 2, 1);
    g.add_edge(2, 3, 1);
    assert_eq!(g.dijkstra(0, 3), Some((2, vec![0, 2, 3])));
    assert_eq!(g.astar(0, 3, |_, _| 5), Some(vec![0, 2, 3]));
}

#[test]
fn the_heuristic_decides_which_way_is_found() {
    let mut g: Graph<u64, ()> = Graph::new();
    // 0 - 1 - 3 and 0 - 2 - 4 - 3; the values say how much a node promises.
    for value in [0, 9, 1, 0, 1] {
        g.add_node(value);
    }
    g.add_edge(0, 1, ());
    g.add_edge(1, 3, ());
    g.add_edge(0, 2, ());
    g.add_edge(2, 4, ());
    g.add_edge(4, 3, ());
    assert_eq!(g.astar(0, 3, |value, _| *value), Some(vec![0, 2, 4, 3]));
    assert_eq!(g.astar(0, 3, |value, _| 10 - *value), Some(vec![0, 1, 3]));
    assert_eq!(g.astar(3, 3, |value, _| *value), Some(vec![3]));
}

#[test]
fn the_search_by_heuristic_gives_up_at_what_is_no_node() {
    let mut g: Graph<u64, ()> = Graph::new();
    for value in [0, 1, 2] {
        g.add_node(value);
    }
    g.add_edge(0, 1, ());
    g.add_edge(1, 2, ());
    g.remove_node(1);
    g.add_edge(0, 1, ());
    g.add_edge(1, 2, ());
    assert_eq!(g.astar(0, 2, |value, _| *value), None);
    assert_eq!(g.search(0, 2, SearchMode::BreadthFirst), Some(vec![0, 1, 2]));
}
