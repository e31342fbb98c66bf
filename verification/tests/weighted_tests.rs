use dsalgo::ungraphs::{Edge, GraphNode, NodeEntry, Path, PriorityQueue, WeightedGraphs};

fn s(text: &str) -> String {
    text.to_string()
}

fn graph(nodes: &[&str], edges: &[(&str, &str, i32)]) -> WeightedGraphs {
    let mut g = WeightedGraphs::new();
    for n in nodes {
        g.add_node(s(n));
    }
    for (a, b, w) in edges {
        g.add_edge(s(a), s(b), *w);
    }
    g
}

fn triangle() -> WeightedGraphs {
    graph(&["A", "B", "C"], &[("A", "B", 1), ("B", "C", 2), ("A", "C", 10)])
}

#[test]
fn path_joins_labels_with_arrows() {
    let mut path = Path::new();
    assert_eq!(path.to_string(), "");
    path.add_node(s("A"));
    assert_eq!(path.to_string(), "A");
    path.add_node(s("B"));
    path.add_node(s("C"));
    assert_eq!(path.to_string(), "A -> B -> C");
    assert_eq!(path.labels(), &vec![s("A"), s("B"), s("C")]);
}

#[test]
fn sorted_queue_hands_out_greatest_first() {
    let mut queue: PriorityQueue<i32> = PriorityQueue::new();
    assert!(queue.is_empty());
    assert_eq!(queue.peek(), None);
    assert_eq!(queue.dequeue(), None);
    queue.enqueue(3);
    queue.enqueue(1);
    queue.enqueue(2);
    queue.enqueue(3);
    assert_eq!(queue.count(), 4);
    assert_eq!(queue.get_all(), &vec![1, 2, 3, 3]);
    assert_eq!(queue.peek(), Some(&3));
    assert_eq!(queue.dequeue(), Some(3));
    assert_eq!(queue.dequeue(), Some(3));
    assert_eq!(queue.dequeue(), Some(2));
    assert_eq!(queue.dequeue(), Some(1));
    assert_eq!(queue.dequeue(), None);
    assert!(queue.is_empty());
}

#[test]
fn sorted_queue_of_pairs() {
    let mut queue: PriorityQueue<(i32, u8)> = PriorityQueue::new();
    queue.enqueue((2, 1));
    queue.enqueue((1, 9));
    queue.enqueue((2, 0));
    assert_eq!(queue.get_all(), &vec![(1, 9), (2, 0), (2, 1)]);
}

#[test]
fn node_records_its_edges_with_both_ends() {
    let mut a = GraphNode::new(s("A"));
    assert_eq!(a.label(), "A");
    assert_eq!(a.get_edges().len(), 0);
    a.add_edge(GraphNode::new(s("B")), 3);
    a.add_edge(GraphNode::new(s("C")), -4);
    let edges = a.get_edges();
    assert_eq!(edges.len(), 2);
    assert_eq!(edges[0].from().label(), "A");
    assert_eq!(edges[0].from().get_edges().len(), 0);
    assert_eq!(edges[0].to().label(), "B");
    assert_eq!(edges[0].weight(), 3);
    assert_eq!(edges[1].from().get_edges().len(), 1);
    assert_eq!(edges[1].to().label(), "C");
    assert_eq!(edges[1].weight(), -4);
    assert_eq!(a.edge_texts(), vec![s("A -> B (3)"), s("A -> C (-4)")]);
    assert_eq!(a.to_string(), "A -> [A -> B (3), A -> C (-4)]\n");
}

#[test]
fn edge_text_shows_the_weight_in_decimal() {
    let edge = Edge::new(GraphNode::new(s("A")), GraphNode::new(s("B")), 10);
    assert_eq!(edge.to_string(), "A -> B (10)");
    let low = Edge::new(GraphNode::new(s("x")), GraphNode::new(s("y")), i32::MIN);
    assert_eq!(low.to_string(), "x -> y (-2147483648)");
    let high = Edge::new(GraphNode::new(s("")), GraphNode::new(s("")), i32::MAX);
    assert_eq!(high.to_string(), " ->  (2147483647)");
    let zero = Edge::new(GraphNode::new(s("a")), GraphNode::new(s("a")), 0);
    assert_eq!(zero.to_string(), "a -> a (0)");
}

#[test]
fn nodes_and_edges_compare_by_value() {
    let mut a = GraphNode::new(s("A"));
    let mut b = GraphNode::new(s("A"));
    assert!(a.same(&b));
    a.add_edge(GraphNode::new(s("B")), 1);
    assert!(!a.same(&b));
    b.add_edge(GraphNode::new(s("B")), 1);
    assert!(a.same(&b));
    assert!(a.same(&a.clone()));
    assert!(!a.same(&GraphNode::new(s("B"))));
    let e = Edge::new(a.clone(), b.clone(), 1);
    assert!(e.same(&e.clone()));
    assert!(!e.same(&Edge::new(a.clone(), b.clone(), 2)));
    assert!(!e.same(&Edge::new(a, GraphNode::new(s("A")), 1)));
}

#[test]
fn node_entry_keeps_node_and_priority() {
    let entry = NodeEntry::new(GraphNode::new(s("A")), 7);
    assert_eq!(entry.node().label(), "A");
    assert_eq!(entry.priority(), 7);
}

#[test]
fn weighted_graph_text() {
    assert_eq!(WeightedGraphs::new().to_string(), "");
    assert_eq!(
        triangle().to_string(),
        "A -> [A -> B (1), A -> C (10)]\nB -> [B -> A (1), B -> C (2)]\nC -> [C -> B (2), C -> A (10)]\n"
    );
}

#[test]
fn weighted_graph_nodes_and_edges() {
    let mut g = triangle();
    assert!(g.contains_node(&s("A")));
    assert!(!g.contains_node(&s("D")));
    g.add_node(s("A"));
    assert_eq!(g.nodes().len(), 3);
    g.add_edge(s("A"), s("D"), 1);
    g.add_edge(s("D"), s("A"), 1);
    assert_eq!(g.get_edges(s("A")), vec![s("A -> B (1)"), s("A -> C (10)")]);
    assert_eq!(g.get_edges(s("B")), vec![s("B -> A (1)"), s("B -> C (2)")]);
    assert_eq!(g.get_edges(s("D")), Vec::<String>::new());
    assert_eq!(g.position(&s("C")), Some(2));
}

#[test]
fn edges_remember_the_far_end_as_it_was() {
    let g = triangle();
    let b = &g.nodes()[1];
    let edges = b.get_edges();
    assert_eq!(edges[0].to().label(), "A");
    assert_eq!(edges[0].to().get_edges().len(), 0);
    assert_eq!(edges[1].from().get_edges().len(), 1);
    let c = &g.nodes()[2];
    let back = &c.get_edges()[0];
    assert_eq!(back.to().label(), "B");
    assert_eq!(back.to().edge_texts(), vec![s("B -> A (1)")]);
}

#[test]
fn edge_from_a_node_to_itself() {
    let g = graph(&["A"], &[("A", "A", 5)]);
    let a = &g.nodes()[0];
    let edges = a.get_edges();
    assert_eq!(edges.len(), 2);
    assert_eq!(edges[0].from().get_edges().len(), 0);
    assert_eq!(edges[0].to().get_edges().len(), 0);
    assert_eq!(edges[1].from().get_edges().len(), 1);
    assert_eq!(edges[1].to().get_edges().len(), 0);
}

#[test]
fn shortest_path_of_the_example() {
    let g = triangle();
    assert_eq!(g.get_shortest_path(s("A"), s("C")).to_string(), "A -> B -> C");
    assert_eq!(g.get_shortest_path(s("C"), s("A")).to_string(), "C -> B -> A");
    assert_eq!(g.get_shortest_path(s("A"), s("B")).to_string(), "A -> B");
}

#[test]
fn shortest_path_prefers_the_direct_edge_when_it_is_lighter() {
    let g = graph(&["A", "B", "C"], &[("A", "B", 5), ("B", "C", 5), ("A", "C", 3)]);
    assert_eq!(g.get_shortest_path(s("A"), s("C")).to_string(), "A -> C");
}

#[test]
fn shortest_path_through_a_larger_graph() {
    let g = graph(
        &["A", "B", "C", "D", "E", "F"],
        &[
            ("A", "B", 7),
            ("A", "C", 9),
            ("A", "F", 14),
            ("B", "C", 10),
            ("B", "D", 15),
            ("C", "D", 11),
            ("C", "F", 2),
            ("D", "E", 6),
            ("E", "F", 9),
        ],
    );
    assert_eq!(g.get_shortest_path(s("A"), s("E")).to_string(), "A -> C -> F -> E");
    assert_eq!(g.get_shortest_path(s("A"), s("D")).to_string(), "A -> C -> D");
}

#[test]
fn shortest_path_to_the_start_itself() {
    assert_eq!(triangle().get_shortest_path(s("B"), s("B")).to_string(), "B");
}

#[test]
fn shortest_path_with_unknown_ends_is_empty() {
    let g = triangle();
    assert_eq!(g.get_shortest_path(s("A"), s("X")).labels().len(), 0);
    assert_eq!(g.get_shortest_path(s("X"), s("A")).labels().len(), 0);
    assert_eq!(g.get_shortest_path(s("X"), s("Y")).to_string(), "");
}

#[test]
fn shortest_path_to_a_node_out_of_reach_is_that_node() {
    let g = graph(&["A", "B", "C"], &[("A", "B", 1)]);
    assert_eq!(g.get_shortest_path(s("A"), s("C")).to_string(), "C");
}

#[test]
fn cycle_scan_of_a_triangle() {
    let g = graph(&["A", "B", "C"], &[("A", "B", 0), ("B", "C", 0), ("C", "A", 0)]);
    assert!(g.has_cycle());
}

#[test]
fn cycle_scan_without_edges() {
    assert!(!WeightedGraphs::new().has_cycle());
    assert!(!graph(&["A", "B"], &[]).has_cycle());
}

#[test]
fn cycle_scan_of_one_edge() {
    assert!(!graph(&["A", "B"], &[("A", "B", 1)]).has_cycle());
}

#[test]
fn cycle_scan_of_a_chain_finds_nothing_in_any_order() {
    for nodes in [["A", "B", "C"], ["B", "A", "C"], ["C", "B", "A"], ["A", "C", "B"]] {
        assert!(!graph(&nodes, &[("A", "B", 1), ("B", "C", 1)]).has_cycle());
        assert!(!graph(&nodes, &[("B", "C", 1), ("A", "B", 1)]).has_cycle());
    }
}

#[test]
fn cycle_scan_of_a_tree_finds_nothing() {
    let g = graph(
        &["r", "a", "b", "c", "d", "e", "lone"],
        &[("r", "a", 1), ("r", "b", 2), ("a", "c", 3), ("a", "d", 4), ("b", "e", 5)],
    );
    assert!(!g.has_cycle());
}

#[test]
fn cycle_scan_finds_a_node_joined_to_itself() {
    assert!(graph(&["A"], &[("A", "A", 1)]).has_cycle());
    assert!(graph(&["A", "B"], &[("A", "B", 1), ("B", "B", 1)]).has_cycle());
}

#[test]
fn cycle_scan_finds_two_edges_between_two_nodes() {
    assert!(graph(&["A", "B"], &[("A", "B", 1), ("A", "B", 2)]).has_cycle());
    assert!(graph(&["A", "B"], &[("A", "B", 1), ("B", "A", 1)]).has_cycle());
    assert!(graph(&["A", "B", "C"], &[("A", "B", 1), ("B", "C", 1), ("C", "B", 1)]).has_cycle());
}

#[test]
fn cycle_scan_finds_a_ring_away_from_the_first_node() {
    let g = graph(
        &["A", "B", "P", "Q", "R", "S"],
        &[("A", "B", 1), ("P", "Q", 1), ("Q", "R", 1), ("R", "S", 1), ("S", "P", 1)],
    );
    assert!(g.has_cycle());
    let hanging = graph(
        &["A", "B", "C", "D"],
        &[("A", "B", 1), ("B", "C", 1), ("C", "D", 1), ("D", "B", 1)],
    );
    assert!(hanging.has_cycle());
}

#[test]
fn spanning_tree_holds_no_ring() {
    let g = graph(
        &["A", "B", "C", "D"],
        &[("A", "B", 3), ("B", "D", 4), ("C", "D", 5), ("A", "C", 1), ("B", "C", 2)],
    );
    assert!(g.has_cycle());
    assert!(!g.get_minimum_spanning_tree().unwrap().has_cycle());
}

#[test]
fn spanning_tree_of_the_example() {
    let g = graph(
        &["A", "B", "C", "D"],
        &[("A", "B", 3), ("B", "D", 4), ("C", "D", 5), ("A", "C", 1), ("B", "C", 2)],
    );
    let tree = g.get_minimum_spanning_tree().unwrap();
    assert_eq!(
        tree.to_string(),
        "A -> [A -> C (1)]\nC -> [C -> A (1), C -> B (2)]\nB -> [B -> C (2), B -> D (4)]\nD -> [D -> B (4)]\n"
    );
}

#[test]
fn spanning_tree_takes_lighter_edges_first() {
    let g = graph(&["A", "B", "C"], &[("A", "B", 9), ("A", "C", 4)]);
    let tree = g.get_minimum_spanning_tree().unwrap();
    assert_eq!(tree.to_string(), "A -> [A -> C (4), A -> B (9)]\nC -> [C -> A (4)]\nB -> [B -> A (9)]\n");
}

#[test]
fn spanning_tree_follows_edges_added_later() {
    let g = graph(&["A", "B", "C"], &[("A", "B", 1), ("B", "C", 1)]);
    let tree = g.get_minimum_spanning_tree().unwrap();
    assert_eq!(tree.to_string(), "A -> [A -> B (1)]\nB -> [B -> A (1), B -> C (1)]\nC -> [C -> B (1)]\n");
}

#[test]
fn spanning_tree_of_small_graphs() {
    let tree = WeightedGraphs::new().get_minimum_spanning_tree().unwrap();
    assert_eq!(tree.nodes().len(), 0);
    let one = graph(&["A"], &[]).get_minimum_spanning_tree().unwrap();
    assert_eq!(one.to_string(), "A -> []\n");
    let looped = graph(&["A"], &[("A", "A", 3)]).get_minimum_spanning_tree().unwrap();
    assert_eq!(looped.to_string(), "A -> []\n");
}

#[test]
fn spanning_tree_needs_a_connected_graph() {
    assert!(graph(&["A", "B"], &[]).get_minimum_spanning_tree().is_none());
    assert!(graph(&["A", "B", "C"], &[("A", "B", 1)]).get_minimum_spanning_tree().is_none());
    assert!(graph(&["A", "B", "C"], &[("B", "C", 1)]).get_minimum_spanning_tree().is_none());
}

fn tree_weight(tree: &WeightedGraphs) -> i64 {
    let mut total: i64 = 0;
    for node in tree.nodes() {
        for edge in node.get_edges() {
            total += edge.weight() as i64;
        }
    }
    total / 2
}

fn root_of(parent: &mut Vec<usize>, mut x: usize) -> usize {
    while parent[x] != x {
        x = parent[x];
    }
    x
}

fn least_weight_by_trying_all(n: usize, edges: &[(usize, usize, i32)]) -> Option<i64> {
    let mut best: Option<i64> = None;
    for chosen in 0u32..(1u32 << edges.len()) {
        if chosen.count_ones() as usize != n - 1 {
            continue;
        }
        let mut parent: Vec<usize> = (0..n).collect();
        let mut total: i64 = 0;
        let mut joined = 0;
        for (at, (a, b, w)) in edges.iter().enumerate() {
            if chosen & (1 << at) != 0 {
                let ra = root_of(&mut parent, *a);
                let rb = root_of(&mut parent, *b);
                if ra != rb {
                    parent[ra] = rb;
                    joined += 1;
                }
                total += *w as i64;
            }
        }
        if joined == n - 1 && best.map_or(true, |b| total < b) {
            best = Some(total);
        }
    }
    best
}

#[test]
fn spanning_tree_weighs_no_more_than_any_other() {
    let names = ["n0", "n1", "n2", "n3", "n4", "n5"];
    let mut seed: u32 = 12345;
    for round in 0..40 {
        let mut edges: Vec<(usize, usize, i32)> = Vec::new();
        for a in 0..names.len() {
            for b in (a + 1)..names.len() {
                seed = seed.wrapping_mul(1664525).wrapping_add(1013904223);
                if (seed >> 16) % 3 != 0 {
                    seed = seed.wrapping_mul(1664525).wrapping_add(1013904223);
                    let weight = ((seed >> 16) % 21) as i32 - if round % 2 == 0 { 0 } else { 7 };
                    edges.push((a, b, weight));
                }
            }
        }
        let mut g = WeightedGraphs::new();
        for name in names {
            g.add_node(s(name));
        }
        for (a, b, w) in &edges {
            g.add_edge(s(names[*a]), s(names[*b]), *w);
        }
        let best = least_weight_by_trying_all(names.len(), &edges);
        match g.get_minimum_spanning_tree() {
            Some(tree) => {
                assert_eq!(Some(tree_weight(&tree)), best);
                assert!(!tree.has_cycle());
                assert_eq!(tree.nodes().len(), names.len());
            }
            None => assert_eq!(best, None),
        }
    }
}

#[test]
fn spanning_tree_has_the_least_weight_on_a_grid() {
    let g = graph(
        &["a", "b", "c", "d", "e", "f"],
        &[
            ("a", "b", 7),
            ("a", "d", 5),
            ("b", "c", 8),
            ("b", "d", 9),
            ("b", "e", 7),
            ("c", "e", 5),
            ("d", "e", 15),
            ("d", "f", 6),
            ("e", "f", 8),
        ],
    );
    let tree = g.get_minimum_spanning_tree().unwrap();
    let mut total = 0;
    let mut count = 0;
    for node in tree.nodes() {
        for edge in node.get_edges() {
            total += edge.weight();
            count += 1;
        }
    }
    assert_eq!(count, 10);
    assert_eq!(total / 2, 30);
}

#[test]
fn attach_hangs_a_new_far_end_on_the_tree() {
    let mut tree = WeightedGraphs::new();
    tree.add_node(s("A"));
    let edge = Edge::new(GraphNode::new(s("A")), GraphNode::new(s("B")), 2);
    assert!(tree.attach(&edge));
    assert_eq!(tree.to_string(), "A -> [A -> B (2)]\nB -> [B -> A (2)]\n");
    assert!(!tree.attach(&edge));
    assert_eq!(tree.nodes().len(), 2);
    let loose = Edge::new(GraphNode::new(s("X")), GraphNode::new(s("C")), 2);
    assert!(tree.attach(&loose));
    assert_eq!(tree.to_string(), "A -> [A -> B (2)]\nB -> [B -> A (2)]\nC -> []\n");
}

#[test]
fn shortest_path_with_large_weights() {
    let g = graph(&["A", "B"], &[("A", "B", 2000000000)]);
    assert_eq!(g.get_shortest_path(s("A"), s("B")).to_string(), "A -> B");
    assert_eq!(g.get_shortest_path(s("A"), s("X")).to_string(), "");
    let far = graph(
        &["A", "B", "C", "D"],
        &[("A", "B", i32::MAX), ("B", "C", i32::MAX), ("C", "D", i32::MAX), ("A", "D", i32::MAX)],
    );
    assert_eq!(far.get_shortest_path(s("A"), s("C")).to_string(), "A -> B -> C");
    assert_eq!(far.get_shortest_path(s("A"), s("D")).to_string(), "A -> D");
}

#[test]
fn shortest_path_with_negative_weights_is_a_route() {
    let g = graph(&["A", "B", "C"], &[("A", "B", -1), ("B", "C", -2), ("A", "C", -1)]);
    assert_eq!(g.get_shortest_path(s("A"), s("C")).to_string(), "A -> B -> C");
}

#[test]
fn shortest_path_of_equal_weight_takes_one_of_them() {
    let g = graph(&["A", "B", "C", "D"], &[("A", "B", 1), ("A", "C", 1), ("B", "D", 1), ("C", "D", 1)]);
    let route = g.get_shortest_path(s("A"), s("D")).to_string();
    assert!(route == "A -> B -> D" || route == "A -> C -> D");
}

#[test]
fn nodes_and_edges_compare_with_the_equality_operator() {
    let mut a = GraphNode::new(s("A"));
    let b = GraphNode::new(s("A"));
    assert!(a == b);
    a.add_edge(GraphNode::new(s("B")), 1);
    assert!(a != b);
    let e = Edge::new(a.clone(), b.clone(), 1);
    assert!(e == e.clone());
    assert!(e != Edge::new(b, a, 1));
}
