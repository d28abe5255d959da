use schist::graph::{DiGraph};

#[test]
fn topo_of_dag() {
    let mut g = DiGraph::new(6);
    g.add_edge(5, 2);
    g.add_edge(5, 0);
    g.add_edge(4, 0);
    g.add_edge(4, 1);
    g.add_edge(2, 3);
    g.add_edge(3, 1);
    let order = g.topo_sort().unwrap();
    // Verify it's a valid ordering.
    let pos: Vec<usize> = {
        let mut p = vec![0; 6];
        for (i, &v) in order.iter().enumerate() {
            p[v] = i;
        }
        p
    };
    for from in 0..6 {
        for &to in g.successors(from) {
            assert!(pos[from] < pos[to]);
        }
    }
}

#[test]
fn detects_cycle() {
    let mut g = DiGraph::new(3);
    g.add_edge(0, 1);
    g.add_edge(1, 2);
    g.add_edge(2, 0);
    assert!(g.has_cycle());
    assert!(g.topo_sort().is_none());
}

#[test]
fn reachability() {
    let mut g = DiGraph::new(4);
    g.add_edge(0, 1);
    g.add_edge(1, 2);
    assert!(g.reachable(0, 2));
    assert!(!g.reachable(2, 0));
    assert!(!g.reachable(0, 3));
}

#[test]
fn scc_components() {
    let mut g = DiGraph::new(5);
    g.add_edge(0, 1);
    g.add_edge(1, 2);
    g.add_edge(2, 0); // cycle {0,1,2}
    g.add_edge(2, 3);
    g.add_edge(3, 4);
    let mut comps = g.strongly_connected_components();
    comps.sort_by_key(|c| c[0]);
    assert!(comps.contains(&vec![0, 1, 2]));
    assert!(comps.contains(&vec![3]));
    assert!(comps.contains(&vec![4]));
    assert_eq!(comps.len(), 3);
}

#[test]
fn graph_dynamic_growth() {
    let mut g = DiGraph::new(0);
    g.add_edge(2, 5);
    assert_eq!(g.vertex_count(), 6);
    assert_eq!(g.edge_count(), 1);
}

#[test]
fn the_topological_order_is_reproducible() {
    let mut g = DiGraph::new(5);
    g.add_edge(3, 1);
    g.add_edge(3, 0);
    g.add_edge(4, 1);
    assert_eq!(g.topo_sort(), Some(vec![2, 3, 4, 0, 1]));
}

#[test]
fn components_come_in_the_order_they_are_finished() {
    let mut g = DiGraph::new(5);
    g.add_edge(0, 1);
    g.add_edge(1, 2);
    g.add_edge(2, 0);
    g.add_edge(2, 3);
    g.add_edge(3, 4);
    assert_eq!(g.strongly_connected_components(), vec![vec![4], vec![3], vec![0, 1, 2]]);
}
