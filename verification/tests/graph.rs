use tree_graph::graph::{Graph, GraphOpError};

fn graph_of(edges: &[(usize, usize)]) -> Graph<usize> {
    let mut graph: Graph<usize> = Graph::new();
    for edge in edges {
        graph.push(*edge);
    }
    graph
}

#[test]
fn lib_solution() {
    let mut dag: Graph<usize> = Graph::new();
    dag.push((1, 2));
    dag.push((1, 3));
    dag.push((2, 4));
    dag.push((2, 5));
    dag.push((4, 5));
    dag.push((4, 6));
    dag.push((6, 3));
    let adj_list = dag.adjacency_list().unwrap();
    println!("adjacency list:\n {}", adj_list.debug_text());

    let mut gp: Graph<usize> = Graph::new();
    gp.push((1, 2));
    gp.push((1, 3));
    gp.push((3, 1));
    gp.push((5, 3));
    gp.push((5, 4));
    gp.push((4, 2));
    gp.push((4, 6));
    assert!(matches!(
        gp.adjacency_list(),
        Err(GraphOpError::ShouldBeDAG)
    ));
}

#[test]
fn adjacency_list_keeps_the_order_of_the_edges() {
    let dag = graph_of(&[(1, 2), (1, 3), (2, 4), (2, 5), (4, 5), (4, 6), (6, 3)]);
    let adj_list = dag.adjacency_list().unwrap();
    assert_eq!(adj_list.len(), 4);
    assert_eq!(
        adj_list.debug_text(),
        "1: 3 -> 2\n2: 5 -> 4\n4: 6 -> 5\n6: 3\n"
    );
}

#[test]
fn graph_without_edges_has_no_heads() {
    let graph: Graph<usize> = Graph::new();
    let adj_list = graph.adjacency_list().unwrap();
    assert_eq!(adj_list.len(), 0);
    assert_eq!(adj_list.debug_text(), "");
}

#[test]
fn an_edge_back_to_an_earlier_source_is_refused() {
    assert!(matches!(
        graph_of(&[(1, 2), (2, 1)]).adjacency_list(),
        Err(GraphOpError::ShouldBeDAG)
    ));
    // only the sources of earlier edges count
    assert!(graph_of(&[(2, 1), (1, 3)]).adjacency_list().is_ok());
    // a first edge from a key to itself passes, a second one does not
    assert!(graph_of(&[(1, 1)]).adjacency_list().is_ok());
    assert!(matches!(
        graph_of(&[(1, 1), (1, 1)]).adjacency_list(),
        Err(GraphOpError::ShouldBeDAG)
    ));
}

#[test]
fn an_edge_may_occur_twice() {
    let graph = graph_of(&[(1, 2), (1, 2), (3, 2)]);
    assert_eq!(
        graph.adjacency_list().unwrap().debug_text(),
        "1: 2 -> 2\n3: 2\n"
    );
}

#[test]
fn remove_takes_the_first_equal_edge() {
    let mut graph = graph_of(&[(1, 2), (3, 4), (1, 2), (5, 6)]);
    graph.remove(&(1, 2)).unwrap();
    assert_eq!(
        graph.adjacency_list().unwrap().debug_text(),
        "3: 4\n1: 2\n5: 6\n"
    );
    graph.remove(&(1, 2)).unwrap();
    assert_eq!(
        graph.adjacency_list().unwrap().debug_text(),
        "3: 4\n5: 6\n"
    );
    assert!(matches!(
        graph.remove(&(1, 2)),
        Err(GraphOpError::TargetNotExists)
    ));
    assert!(matches!(
        graph.remove(&(4, 3)),
        Err(GraphOpError::TargetNotExists)
    ));
    assert_eq!(
        graph.adjacency_list().unwrap().debug_text(),
        "3: 4\n5: 6\n"
    );
}

#[test]
fn removing_the_offending_edge_makes_the_graph_pass() {
    let mut graph = graph_of(&[(1, 2), (1, 3), (3, 1), (5, 3)]);
    assert!(graph.adjacency_list().is_err());
    graph.remove(&(3, 1)).unwrap();
    assert_eq!(
        graph.adjacency_list().unwrap().debug_text(),
        "1: 3 -> 2\n5: 3\n"
    );
}

#[test]
fn edges_are_judged_one_by_one() {
    // two ways lead to 5: no edge goes back to an earlier source
    assert!(graph_of(&[(2, 4), (2, 5), (4, 5)]).adjacency_list().is_ok());
    // without a cycle, but the edge to 1 comes after the edge from 1
    assert!(matches!(
        graph_of(&[(1, 2), (3, 1)]).adjacency_list(),
        Err(GraphOpError::ShouldBeDAG)
    ));
    // the same edges in another order pass
    assert_eq!(
        graph_of(&[(3, 1), (1, 2)]).adjacency_list().unwrap().debug_text(),
        "3: 1\n1: 2\n"
    );
}
