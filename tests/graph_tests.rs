use graphslice::graph::{CodeNode, DependencyGraph, Edge, EdgeType, NodeId};

fn id(line: u32) -> NodeId {
    NodeId::new("/w/src/lib.rs".to_string(), line, 0)
}

fn node(line: u32, code: &str) -> CodeNode {
    CodeNode { id: id(line), code: code.to_string(), node_type: "definition".to_string() }
}

fn edge(a: u32, b: u32) -> Edge {
    Edge { from: id(a), to: id(b), edge_type: EdgeType::Calls }
}

#[test]
fn bfs_lists_each_reachable_node_once_with_its_distance() {
    let mut g = DependencyGraph::new();
    for l in 0..5 {
        g.add_node(node(l, "x"));
    }
    g.add_edge(edge(0, 1));
    g.add_edge(edge(0, 2));
    g.add_edge(edge(1, 3));
    g.add_edge(edge(2, 3));
    g.add_edge(edge(3, 0));
    let visits = g.bfs_from(&id(0));
    let got: Vec<(u32, usize)> = visits.iter().map(|(n, d)| (n.line, *d)).collect();
    assert_eq!(got, vec![(0, 0), (1, 1), (2, 1), (3, 2)]);
}

#[test]
fn bfs_distances_never_decrease() {
    let mut g = DependencyGraph::new();
    g.add_edge(edge(0, 1));
    g.add_edge(edge(1, 2));
    g.add_edge(edge(0, 3));
    g.add_edge(edge(3, 2));
    g.add_edge(edge(2, 4));
    let visits = g.bfs_from(&id(0));
    assert!(visits.windows(2).all(|w| w[0].1 <= w[1].1));
    assert_eq!(visits.len(), 5);
    assert_eq!(visits.last().unwrap(), &(id(4), 3));
}

#[test]
fn bfs_from_isolated_root_is_root_alone() {
    let g = DependencyGraph::new();
    let visits = g.bfs_from(&id(7));
    assert_eq!(visits, vec![(id(7), 0)]);
}

#[test]
fn add_node_replaces_node_at_same_location() {
    let mut g = DependencyGraph::new();
    g.add_node(node(1, "old"));
    g.add_node(node(2, "other"));
    g.add_node(node(1, "new"));
    assert_eq!(g.nodes.len(), 2);
    assert_eq!(g.get_node(&id(1)).unwrap().code, "new");
}

#[test]
fn add_node_if_absent_keeps_first() {
    let mut g = DependencyGraph::new();
    g.add_node_if_absent(node(1, "first"));
    g.add_node_if_absent(node(1, "second"));
    assert_eq!(g.nodes.len(), 1);
    assert_eq!(g.nodes[0].code, "first");
}

#[test]
fn get_dependencies_follows_one_edge_and_skips_missing_nodes() {
    let mut g = DependencyGraph::new();
    g.add_node(node(0, "root"));
    g.add_node(node(1, "a"));
    g.add_node(node(2, "b"));
    g.add_edge(edge(0, 2));
    g.add_edge(edge(0, 9));
    g.add_edge(edge(0, 1));
    g.add_edge(edge(1, 2));
    let deps = g.get_dependencies(&id(0));
    let codes: Vec<&str> = deps.iter().map(|n| n.code.as_str()).collect();
    assert_eq!(codes, vec!["b", "a"]);
}

#[test]
fn node_ids_compare_by_location() {
    assert_eq!(id(3), id(3));
    assert_ne!(id(3), id(4));
    assert!(id(3).same_location(&id(3).clone()));
}
