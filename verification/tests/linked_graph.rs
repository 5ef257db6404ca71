use ps_algorithm::graph::{Graph, Neighbors};

fn collect<'a>(mut cursor: Neighbors<'a, ()>) -> Vec<(usize, &'a ())> {
    let mut out = Vec::new();
    while let Some(edge) = cursor.next() {
        out.push(edge);
    }
    out
}

#[test]
fn mod_connect() {
    let mut graph = Graph::new(2, 2);
    graph.connect(0, 1, ());
    assert_eq!(&vec![Some(0), None], graph.nodes());
    assert_eq!(&vec![(None, 1, ())], graph.edges());
    graph.connect(0, 0, ());
    assert_eq!(&vec![Some(1), None], graph.nodes());
    assert_eq!(&vec![(None, 1, ()), (Some(0), 0, ())], graph.edges());
}

#[test]
fn mod_neighbors() {
    let mut graph = Graph::new(3, 2);
    graph.connect(0, 1, ());
    graph.connect(0, 2, ());
    assert_eq!(vec![(2, &()), (1, &())], collect(graph.neighbors(0)));
    assert_eq!(Vec::<(usize, &())>::new(), collect(graph.neighbors(1)));
}

#[test]
fn linked_graph_counts() {
    let mut graph = Graph::new(3, 0);
    assert_eq!(3, graph.node_count());
    assert_eq!(0, graph.edge_count());
    graph.connect(2, 0, "a");
    graph.connect(1, 0, "b");
    graph.connect(2, 1, "c");
    assert_eq!(3, graph.node_count());
    assert_eq!(3, graph.edge_count());
    let mut cursor = graph.neighbors(2);
    assert_eq!(Some((1, &"c")), cursor.next());
    assert_eq!(Some((0, &"a")), cursor.next());
    assert_eq!(None, cursor.next());
    assert_eq!(None, cursor.next());
}
