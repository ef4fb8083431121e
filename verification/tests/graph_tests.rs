use small_tools::graph::{Graph, GraphError};

fn targets(edges: &Vec<small_tools::graph::Edge>) -> Vec<usize> {
    edges.iter().map(|e| e.target).collect()
}

fn demo_graph() -> Graph<String> {
    let mut g: Graph<String> = Graph::new();
    let start = g.add_node("Start".to_string());
    assert_eq!(start, 0);
    for i in 0..10 {
        g.add_node(format!("Node {}", i));
    }
    for i in 0..7 {
        let _ = g.add_edge(i, i + 2, 1);
        let _ = g.add_edge(i + 1, i + 3, 1);
    }
    for i in 0..6 {
        let _ = g.add_edge(i, i + 3, 2);
    }
    let _ = g.add_edge(0, 1, 5);
    g
}

#[test]
fn demo_traversal_order() {
    let g = demo_graph();
    assert_eq!(g.traverse(0), vec![0, 1, 4, 7, 9, 6, 8, 3, 5, 2]);
    assert_eq!(targets(g.slot(0).outgoing()), vec![2, 3, 1]);
    assert_eq!(targets(g.slot(3).incoming()), vec![1, 0]);
}

#[test]
fn demo_after_removals() {
    let mut g = demo_graph();
    g.remove_edge(8, 10);
    g.remove_node(10);
    assert_eq!(g.traverse(0), vec![0, 1, 4, 7, 9, 6, 8, 3, 5, 2]);
    assert!(g.get_node(10).is_none());
    assert!(g.slot(10).is_deleted());
    assert_eq!(g.node_count(), 11);
}

#[test]
fn duplicate_edge_refused() {
    let mut g = demo_graph();
    assert_eq!(g.add_edge(1, 3, 9), Err(GraphError::EdgeAlreadyExists(3)));
    assert_eq!(targets(g.slot(1).outgoing()), vec![3, 4]);
}

#[test]
fn missing_source_refused() {
    let mut g = demo_graph();
    assert_eq!(g.add_edge(42, 1, 1), Err(GraphError::NodeNotFound(42)));
}

#[test]
fn missing_target_refused_and_undone() {
    let mut g = demo_graph();
    assert_eq!(g.add_edge(9, 42, 1), Err(GraphError::NodeNotFound(42)));
    assert!(g.slot(9).outgoing().is_empty());
}

#[test]
fn deleted_target_refused_and_undone() {
    let mut g = demo_graph();
    g.remove_node(10);
    assert_eq!(g.add_edge(9, 10, 1), Err(GraphError::NodeNotFound(10)));
    assert!(g.slot(9).outgoing().is_empty());
    assert_eq!(g.add_edge(10, 9, 1), Err(GraphError::NodeNotFound(10)));
}

#[test]
fn add_then_remove_edge_restores() {
    let mut g = demo_graph();
    assert_eq!(g.add_edge(9, 0, 4), Ok(()));
    assert_eq!(targets(g.slot(9).outgoing()), vec![0]);
    assert_eq!(targets(g.slot(0).incoming()), vec![9]);
    assert_eq!(g.slot(0).incoming()[0].weight, 4);
    g.remove_edge(9, 0);
    assert!(g.slot(9).outgoing().is_empty());
    assert!(g.slot(0).incoming().is_empty());
}

#[test]
fn self_loop_recorded_at_both_lists() {
    let mut g: Graph<u8> = Graph::new();
    let a = g.add_node(1);
    assert_eq!(g.add_edge(a, a, 3), Ok(()));
    assert_eq!(targets(g.slot(a).outgoing()), vec![a]);
    assert_eq!(targets(g.slot(a).incoming()), vec![a]);
    assert_eq!(g.traverse(a), vec![a]);
    g.remove_node(a);
    assert!(g.slot(a).outgoing().is_empty());
    assert!(g.slot(a).incoming().is_empty());
}

#[test]
fn removed_node_is_isolated_and_reused() {
    let mut g: Graph<&str> = Graph::new();
    let a = g.add_node("a");
    let b = g.add_node("b");
    let c = g.add_node("c");
    assert_eq!(g.add_edge(a, b, 1), Ok(()));
    assert_eq!(g.add_edge(b, c, 1), Ok(()));
    g.remove_node(b);
    assert!(g.get_node(b).is_none());
    assert!(g.get_node(a).unwrap().outgoing().is_empty());
    assert!(g.get_node(c).unwrap().incoming().is_empty());
    let d = g.add_node("d");
    assert_eq!(d, b);
    assert_eq!(*g.get_node(d).unwrap().data(), "d");
}

#[test]
fn remove_missing_or_deleted_node_changes_nothing() {
    let mut g: Graph<u8> = Graph::new();
    let a = g.add_node(7);
    g.remove_node(5);
    assert_eq!(g.node_count(), 1);
    g.remove_node(a);
    g.remove_node(a);
    assert_eq!(g.add_node(8), a);
    assert_eq!(g.node_count(), 2);
    assert!(g.slot(1).is_deleted());
    assert_eq!(g.add_node(9), 2);
}

#[test]
fn reused_slot_shifts_later_slots() {
    let mut g: Graph<&str> = Graph::new();
    for name in ["0", "1", "2"] {
        g.add_node(name);
    }
    assert_eq!(g.add_edge(0, 2, 1), Ok(()));
    assert_eq!(g.add_edge(2, 0, 1), Ok(()));
    g.remove_node(1);
    assert_eq!(g.add_node("x"), 1);
    assert_eq!(g.node_count(), 4);
    assert_eq!(*g.slot(1).data(), "x");
    assert!(g.slot(2).is_deleted());
    assert_eq!(*g.slot(3).data(), "2");
    assert_eq!(g.add_edge(3, 0, 4), Err(GraphError::EdgeAlreadyExists(0)));
    assert_eq!(g.add_edge(0, 3, 7), Err(GraphError::EdgeAlreadyExists(0)));
    assert_eq!(targets(g.slot(0).outgoing()), vec![2]);
    assert_eq!(g.traverse(0), vec![0, 2]);
}

#[test]
fn get_node_filters_deleted_and_missing() {
    let mut g: Graph<u32> = Graph::new();
    let a = g.add_node(11);
    assert_eq!(*g.get_node(a).unwrap().data(), 11);
    assert!(g.get_node(1).is_none());
    g.remove_node(a);
    assert!(g.get_node(a).is_none());
}

#[test]
fn error_messages() {
    assert_eq!(GraphError::NodeNotFound(3).message(), "Node 3 not found.");
    assert_eq!(GraphError::EdgeAlreadyExists(12).message(), "Edge target 12 already exists.");
    assert_eq!(GraphError::EdgeNotFound(0).message(), "Edge target 0 not found.");
}

fn reachable(g: &Graph<String>, start: usize) -> Vec<usize> {
    let mut seen = vec![false; g.node_count()];
    let mut todo = vec![start];
    while let Some(v) = todo.pop() {
        if !seen[v] {
            seen[v] = true;
            for e in g.slot(v).outgoing() {
                todo.push(e.target);
            }
        }
    }
    (0..g.node_count()).filter(|i| seen[*i]).collect()
}

#[test]
fn traversal_reports_reachable_slots_once() {
    let g = demo_graph();
    for start in 0..g.node_count() {
        let mut order = g.traverse(start);
        assert_eq!(order[0], start);
        order.sort();
        let before = order.len();
        order.dedup();
        assert_eq!(order.len(), before);
        assert_eq!(order, reachable(&g, start));
    }
    assert_eq!(g.traverse(9), vec![9]);
    assert_eq!(g.traverse(5), vec![5, 8, 7, 9]);
}

#[test]
fn edges_stay_recorded_at_both_ends() {
    let mut g: Graph<u8> = Graph::new();
    for i in 0..4 {
        g.add_node(i);
    }
    assert_eq!(g.add_edge(0, 1, 1), Ok(()));
    assert_eq!(g.add_edge(1, 2, 1), Ok(()));
    assert_eq!(g.add_edge(2, 0, 1), Ok(()));
    assert_eq!(g.add_edge(3, 1, 1), Ok(()));
    g.remove_edge(1, 2);
    g.remove_node(3);
    let d = g.add_node(9);
    assert_eq!(d, 3);
    for i in 0..g.node_count() {
        for e in g.slot(i).outgoing() {
            assert!(g.slot(e.target).incoming().iter().any(|b| b.target == i));
        }
        for e in g.slot(i).incoming() {
            assert!(g.slot(e.target).outgoing().iter().any(|b| b.target == i));
        }
    }
    assert_eq!(targets(g.slot(1).incoming()), vec![0]);
}

#[test]
fn weights_mirrored_and_deleted_slots_empty() {
    let mut g: Graph<u8> = Graph::new();
    for i in 0..4 {
        g.add_node(i);
    }
    assert_eq!(g.add_edge(0, 1, 7), Ok(()));
    assert_eq!(g.add_edge(2, 1, 3), Ok(()));
    assert_eq!(g.add_edge(1, 3, 5), Ok(()));
    g.remove_node(2);
    g.remove_edge(1, 3);
    for i in 0..g.node_count() {
        let node = g.slot(i);
        if node.is_deleted() {
            assert!(node.outgoing().is_empty() && node.incoming().is_empty());
        }
        for e in node.outgoing() {
            assert!(g.slot(e.target).incoming().iter().any(|b| b.target == i && b.weight == e.weight));
        }
    }
    assert_eq!(g.slot(1).incoming()[0].weight, 7);
    assert_eq!(g.slot(1).incoming().len(), 1);
    assert_eq!(g.add_node(9), 2);
}
