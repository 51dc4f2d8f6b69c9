use riscv_benchmarks::graph::{create_test_dag, Graph};

fn cyclic_graph() -> Graph {
    let mut g = Graph::new(3);
    g.add_edge(0, 1);
    g.add_edge(1, 2);
    g.add_edge(2, 0);
    g
}

#[test]
fn test_dag_bfs_from_five() {
    let g = create_test_dag();
    assert_eq!(g.bfs(5), vec![5, 2, 0, 3, 1]);
}

#[test]
fn test_dag_dfs_iterative_from_five() {
    let g = create_test_dag();
    assert_eq!(g.dfs_iterative(5), vec![5, 2, 3, 1, 0]);
}

#[test]
fn test_dag_dfs_recursive_from_five() {
    let g = create_test_dag();
    assert_eq!(g.dfs_recursive(5), vec![5, 2, 3, 1, 0]);
}

#[test]
fn test_dag_has_no_cycle() {
    let g = create_test_dag();
    assert!(!g.has_cycle());
}

#[test]
fn test_dag_topological_order() {
    let g = create_test_dag();
    assert_eq!(g.topological_sort(), Some(vec![4, 5, 2, 0, 3, 1]));
}

#[test]
fn test_cycle_detected() {
    let g = cyclic_graph();
    assert!(g.has_cycle());
}

#[test]
fn test_cycle_has_no_topological_order() {
    let g = cyclic_graph();
    assert_eq!(g.topological_sort(), None);
}

#[test]
fn test_self_loop_is_cycle() {
    let mut g = Graph::new(2);
    g.add_edge(0, 1);
    g.add_edge(1, 1);
    assert!(g.has_cycle());
    assert_eq!(g.topological_sort(), None);
}

#[test]
fn test_has_cycle_agrees_with_topological_sort() {
    let graphs = vec![create_test_dag(), cyclic_graph(), Graph::new(0), Graph::new(4)];
    for g in &graphs {
        assert_eq!(g.has_cycle(), g.topological_sort().is_none());
    }
}

#[test]
fn test_traversals_visit_same_vertices() {
    let g = create_test_dag();
    for start in 0..6 {
        let mut a = g.bfs(start);
        let mut b = g.dfs_iterative(start);
        let mut c = g.dfs_recursive(start);
        assert_eq!(a[0], start);
        assert_eq!(b[0], start);
        assert_eq!(c[0], start);
        a.sort();
        b.sort();
        c.sort();
        assert_eq!(a, b);
        assert_eq!(b, c);
    }
}

#[test]
fn test_traversal_from_sink_is_alone() {
    let g = create_test_dag();
    assert_eq!(g.bfs(1), vec![1]);
    assert_eq!(g.dfs_iterative(0), vec![0]);
    assert_eq!(g.dfs_recursive(1), vec![1]);
}

#[test]
fn test_traversal_in_cycle_reaches_all() {
    let g = cyclic_graph();
    assert_eq!(g.bfs(1), vec![1, 2, 0]);
    assert_eq!(g.dfs_iterative(2), vec![2, 0, 1]);
    assert_eq!(g.dfs_recursive(0), vec![0, 1, 2]);
}

#[test]
fn test_bfs_discovery_order_by_adjacency() {
    let mut g = Graph::new(5);
    g.add_edge(0, 3);
    g.add_edge(0, 1);
    g.add_edge(1, 4);
    g.add_edge(3, 2);
    assert_eq!(g.bfs(0), vec![0, 3, 1, 2, 4]);
    assert_eq!(g.dfs_recursive(0), vec![0, 3, 2, 1, 4]);
    assert_eq!(g.dfs_iterative(0), vec![0, 3, 2, 1, 4]);
}

#[test]
fn test_new_graph_counts_vertices() {
    let g = Graph::new(7);
    assert_eq!(g.num_vertices(), 7);
    assert_eq!(g.topological_sort(), Some(vec![0, 1, 2, 3, 4, 5, 6]));
}

#[test]
fn test_duplicate_edges_in_topological_sort() {
    let mut g = Graph::new(2);
    g.add_edge(1, 0);
    g.add_edge(1, 0);
    assert_eq!(g.topological_sort(), Some(vec![1, 0]));
    assert!(!g.has_cycle());
}
