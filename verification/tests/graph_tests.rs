use htn::Graph;

#[test]
fn empty_graph_has_nothing() {
    let g: Graph<u32> = Graph::default();
    assert_eq!(g.num_nodes(), 0);
    assert_eq!(g.num_edges(), 0);
    assert!(g.get(0).is_none());
    assert!(g.succ(0).is_none());
    assert!(g.edges().is_empty());
}

#[test]
fn add_node_hands_back_consecutive_indices() {
    let mut g: Graph<&str> = Graph::default();
    assert_eq!(g.add_node("a"), 0);
    assert_eq!(g.add_node("b"), 1);
    assert_eq!(g.num_nodes(), 2);
    assert_eq!(g.get(0), Some(&"a"));
    assert_eq!(g.get(1), Some(&"b"));
    assert_eq!(g.get(2), None);
}

#[test]
fn edges_list_in_source_then_insertion_order() {
    let mut g: Graph<char> = Graph::default();
    let a = g.add_node('a');
    let b = g.add_node('b');
    let c = g.add_node('c');
    g.add_edge(b, c);
    g.add_edge(a, c);
    g.add_edge(a, b);
    assert_eq!(g.num_edges(), 3);
    assert_eq!(g.succ(a), Some(&vec![c, b]));
    assert_eq!(g.succ(b), Some(&vec![c]));
    assert!(g.succ(c).is_none());
    let pairs = g.edges();
    assert_eq!(pairs, vec![(&'a', &'c'), (&'a', &'b'), (&'b', &'c')]);
}

#[test]
fn nodes_iter_yields_payloads_in_index_order() {
    let mut g: Graph<u64> = Graph::default();
    g.add_node(10);
    g.add_node(20);
    let collected: Vec<u64> = g.nodes_iter().iter().copied().collect();
    assert_eq!(collected, vec![10, 20]);
}

#[test]
fn edges_may_arrive_before_their_nodes() {
    let mut g: Graph<char> = Graph::default();
    g.add_edge(1, 2);
    assert_eq!(g.num_edges(), 1);
    assert_eq!(g.succ(1), Some(&vec![2]));
    assert!(g.succ(0).is_none());
    g.add_node('a');
    g.add_node('b');
    g.add_node('c');
    assert_eq!(g.edges(), vec![(&'b', &'c')]);
}
