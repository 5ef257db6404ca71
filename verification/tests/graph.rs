use ps_algorithm::data_structure::graph::Graph;
use ps_algorithm::data_structure::graph::Neighbors;

fn collect<'a>(mut cursor: Neighbors<'a, ()>) -> Vec<(usize, &'a ())> {
    let mut out = Vec::new();
    while let Some(edge) = cursor.next() {
        out.push(edge);
    }
    out
}

#[test]
fn graph_connect() {
    let mut graph = Graph::new(2);
    graph.connect(0, 1, ());
    assert_eq!(&vec![vec![(1, ())], vec![]], graph.list());
    graph.connect(0, 0, ());
    assert_eq!(&vec![vec![(1, ()), (0, ())], vec![]], graph.list());
}

#[test]
fn graph_neighbors() {
    let mut graph = Graph::new(3);
    graph.connect(0, 1, ());
    graph.connect(0, 2, ());
    assert_eq!(vec![(1, &()), (2, &())], collect(graph.neighbors(0)));
    assert_eq!(Vec::<(usize, &())>::new(), collect(graph.neighbors(1)));
}

#[test]
fn graph_counts() {
    let mut graph = Graph::new(4);
    assert_eq!(4, graph.node_count());
    assert_eq!(0, graph.edge_count());
    graph.connect(3, 0, 'x');
    graph.connect(3, 3, 'y');
    graph.connect(1, 2, 'z');
    assert_eq!(4, graph.node_count());
    assert_eq!(3, graph.edge_count());
    let mut cursor = graph.neighbors(3);
    assert_eq!(Some((0, &'x')), cursor.next());
    assert_eq!(Some((3, &'y')), cursor.next());
    assert_eq!(None, cursor.next());
    assert_eq!(None, cursor.next());
}

#[test]
fn graph_without_nodes() {
    let graph = Graph::<u8>::new(0);
    assert_eq!(0, graph.node_count());
    assert_eq!(0, graph.edge_count());
}
