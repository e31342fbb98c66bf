use dsalgo::graphs::{Graph, GraphNode, Stack};

fn s(text: &str) -> String {
    text.to_string()
}

fn graph(nodes: &[&str], edges: &[(&str, &str)]) -> Graph {
    let mut g = Graph::new();
    for n in nodes {
        g.add_node(s(n));
    }
    for (a, b) in edges {
        g.add_edge(s(a), s(b));
    }
    g
}

fn names(nodes: &Vec<GraphNode>) -> Vec<String> {
    nodes.iter().map(|n| n.label().clone()).collect()
}

fn strings(words: &[&str]) -> Vec<String> {
    words.iter().map(|w| w.to_string()).collect()
}

#[test]
fn stack_is_last_in_first_out() {
    let mut stack: Stack<i32> = Stack::new();
    assert!(stack.is_empty());
    assert_eq!(stack.peek(), None);
    assert_eq!(stack.pop(), None);
    stack.push(1);
    stack.push(2);
    assert!(!stack.is_empty());
    assert_eq!(stack.peek(), Some(&2));
    assert_eq!(stack.pop(), Some(2));
    assert_eq!(stack.pop(), Some(1));
    assert_eq!(stack.pop(), None);
    assert!(stack.is_empty());
}

#[test]
fn stack_to_and_from_list() {
    let stack = Stack::from_vec(vec![1, 2, 3]);
    assert_eq!(stack.peek(), Some(&3));
    assert_eq!(stack.into_vec(), vec![1, 2, 3]);
}

#[test]
fn graph_node_keeps_its_label() {
    let node = GraphNode::new(s("kevin"));
    assert_eq!(node.label(), "kevin");
    assert_eq!(node.clone().label(), "kevin");
}

#[test]
fn graph_add_node_ignores_a_taken_label() {
    let mut g = Graph::new();
    g.add_node(s("a"));
    g.add_node(s("b"));
    g.add_edge(s("a"), s("b"));
    g.add_node(s("a"));
    assert_eq!(g.position(&s("a")), Some(0));
    assert_eq!(g.position(&s("b")), Some(1));
    assert_eq!(g.position(&s("c")), None);
    assert_eq!(g.connections(), vec![(s("a"), strings(&["b"]))]);
}

#[test]
fn graph_add_edge_needs_both_nodes() {
    let mut g = graph(&["kevin", "vina", "becca"], &[("kevin", "vina"), ("kevin", "becca")]);
    g.add_edge(s("kevin"), s("nobody"));
    g.add_edge(s("nobody"), s("kevin"));
    assert_eq!(g.connections(), vec![(s("kevin"), strings(&["vina", "becca"]))]);
}

#[test]
fn graph_add_edge_twice_adds_two_edges() {
    let g = graph(&["a", "b"], &[("a", "b"), ("a", "b")]);
    assert_eq!(g.connections(), vec![(s("a"), strings(&["b", "b"]))]);
}

#[test]
fn graph_remove_edge_takes_the_oldest_such_edge() {
    let mut g = graph(&["a", "b", "c"], &[("a", "b"), ("a", "c"), ("a", "b")]);
    g.remove_edge(s("a"), s("b"));
    assert_eq!(g.connections(), vec![(s("a"), strings(&["c", "b"]))]);
    g.remove_edge(s("a"), s("d"));
    g.remove_edge(s("d"), s("a"));
    g.remove_edge(s("b"), s("a"));
    assert_eq!(g.connections(), vec![(s("a"), strings(&["c", "b"]))]);
}

#[test]
fn graph_remove_node_takes_node_and_edges_to_it() {
    let mut g = graph(
        &["kevin", "vina", "becca"],
        &[("kevin", "vina"), ("kevin", "becca"), ("vina", "kevin"), ("becca", "vina")],
    );
    g.remove_node(s("kevin"));
    assert_eq!(g.position(&s("kevin")), None);
    assert_eq!(g.position(&s("vina")), Some(0));
    assert_eq!(g.connections(), vec![(s("becca"), strings(&["vina"]))]);
    g.remove_node(s("nobody"));
    assert_eq!(g.connections(), vec![(s("becca"), strings(&["vina"]))]);
}

#[test]
fn graph_remove_node_leaves_later_edges_of_a_doubled_edge() {
    let mut g = graph(&["a", "b"], &[("a", "b"), ("a", "b")]);
    g.remove_node(s("b"));
    assert_eq!(g.connections(), vec![(s("a"), strings(&["b"]))]);
}

#[test]
fn graph_adjacent_nodes() {
    let g = graph(&["a", "b", "c"], &[("a", "b"), ("a", "c")]);
    let adjacent = g.get_adjacent_nodes(&GraphNode::new(s("a"))).unwrap();
    assert_eq!(names(&adjacent), strings(&["b", "c"]));
    assert_eq!(names(&g.get_adjacent_nodes(&GraphNode::new(s("b"))).unwrap()), strings(&[]));
    assert!(g.get_adjacent_nodes(&GraphNode::new(s("x"))).is_none());
}

fn diamond() -> Graph {
    graph(&["A", "B", "C", "D"], &[("A", "B"), ("B", "D"), ("D", "C"), ("A", "C")])
}

#[test]
fn depth_first_recursive_follows_the_oldest_edge_first() {
    let g = diamond();
    assert_eq!(names(&g.depth_first_traversal_recursive(s("A"))), strings(&["A", "B", "D", "C"]));
    assert_eq!(names(&g.depth_first_traversal_recursive(s("D"))), strings(&["D", "C"]));
    assert_eq!(names(&g.depth_first_traversal_recursive(s("C"))), strings(&["C"]));
    assert_eq!(names(&g.depth_first_traversal_recursive(s("X"))), strings(&[]));
}

#[test]
fn depth_first_iterative_takes_the_newest_pending_node() {
    let g = diamond();
    assert_eq!(names(&g.depth_first_traversal_iterative(s("A"))), strings(&["A", "C", "B", "D"]));
    assert_eq!(names(&g.depth_first_traversal_iterative(s("D"))), strings(&["D", "C"]));
    assert_eq!(names(&g.depth_first_traversal_iterative(s("X"))), strings(&[]));
}

#[test]
fn breadth_first_visits_nearer_nodes_first() {
    let g = diamond();
    assert_eq!(names(&g.breadth_first_traversal(s("A"))), strings(&["A", "B", "C", "D"]));
    assert_eq!(names(&g.breadth_first_traversal(s("D"))), strings(&["D", "C"]));
    assert_eq!(names(&g.breadth_first_traversal(s("X"))), strings(&[]));
}

#[test]
fn traversals_end_on_a_cycle() {
    let g = graph(&["A", "B", "C"], &[("A", "B"), ("B", "C"), ("C", "A"), ("A", "A")]);
    assert_eq!(names(&g.depth_first_traversal_recursive(s("B"))), strings(&["B", "C", "A"]));
    assert_eq!(names(&g.depth_first_traversal_iterative(s("B"))), strings(&["B", "C", "A"]));
    assert_eq!(names(&g.breadth_first_traversal(s("B"))), strings(&["B", "C", "A"]));
}

#[test]
fn topological_sort_of_the_example() {
    let g = graph(&["X", "P", "A", "B"], &[("X", "A"), ("X", "B"), ("A", "P"), ("B", "P")]);
    assert_eq!(g.topological_sort(), strings(&["X", "B", "A", "P"]));
}

#[test]
fn topological_sort_puts_every_edge_forwards() {
    let edges = [("shirt", "tie"), ("tie", "jacket"), ("trousers", "shoes"), ("trousers", "belt"),
        ("belt", "jacket"), ("socks", "shoes")];
    let g = graph(&["jacket", "shoes", "tie", "belt", "shirt", "trousers", "socks"], &edges);
    let sorted = g.topological_sort();
    assert_eq!(sorted.len(), 7);
    for (a, b) in edges {
        let at = sorted.iter().position(|l| l == a).unwrap();
        let bt = sorted.iter().position(|l| l == b).unwrap();
        assert!(at < bt);
    }
}

#[test]
fn topological_sort_of_nothing() {
    assert_eq!(Graph::new().topological_sort(), strings(&[]));
}

#[test]
fn cycle_of_three_is_found() {
    let g = graph(&["A", "B", "C"], &[("A", "B"), ("B", "C"), ("C", "A")]);
    assert!(g.has_cycle());
}

#[test]
fn graphs_without_cycle() {
    assert!(!Graph::new().has_cycle());
    assert!(!graph(&["A"], &[]).has_cycle());
    assert!(!diamond().has_cycle());
    let g = graph(&["X", "P", "A", "B"], &[("X", "A"), ("X", "B"), ("A", "P"), ("B", "P")]);
    assert!(!g.has_cycle());
}

#[test]
fn edge_to_itself_is_a_cycle() {
    assert!(graph(&["A", "B"], &[("A", "B"), ("B", "B")]).has_cycle());
}

#[test]
fn cycle_away_from_the_first_node_is_found() {
    let g = graph(&["A", "B", "C", "D"], &[("A", "B"), ("C", "D"), ("D", "C")]);
    assert!(g.has_cycle());
}

#[test]
fn graph_is_closed_until_a_doubled_edge_outlives_its_node() {
    let mut g = graph(&["a", "b"], &[("a", "b"), ("a", "b")]);
    assert!(g.is_closed());
    g.remove_node(s("b"));
    assert!(!g.is_closed());
    g.remove_edge(s("a"), s("b"));
    assert!(!g.is_closed());
    g.add_node(s("b"));
    assert!(g.is_closed());
    assert!(Graph::new().is_closed());
}

#[test]
fn graph_nodes_compare_by_label() {
    assert!(GraphNode::new(s("a")) == GraphNode::new(s("a")));
    assert!(GraphNode::new(s("a")) != GraphNode::new(s("b")));
}
