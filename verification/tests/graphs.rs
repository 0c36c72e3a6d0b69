use graph_builder::{DirectedCsrGraph, DirectedNeighbors, GraphBuilder};
use graph_builder::Graph as GbGraph;
use petgraph::graph::DiGraph;
use topogen::graph::{Graph, Graph0};

fn from_petgraph(g: &DiGraph<(), ()>) -> Graph0 {
    let mut out = Graph0::new(g.node_count());
    for e in g.edge_indices() {
        let (v, w) = g.edge_endpoints(e).unwrap();
        out.add_edge(v.index(), w.index());
    }
    out
}

fn from_graph_builder(g: &DirectedCsrGraph<usize>) -> Graph0 {
    let n: usize = g.node_count();
    let mut out = Graph0::new(n);
    let mut v: usize = 0;
    while v < n {
        for w in g.out_neighbors(v) {
            out.add_edge(v, *w);
        }
        v += 1;
    }
    out
}

#[test]
fn petgraph_test_size() {
    let n = 4;

    let mut g = DiGraph::<(), ()>::new();
    for _ in 0..n {
        g.add_node(());
    }

    let size = Graph::size(&from_petgraph(&g));
    assert_eq!(size, n);
}

#[test]
fn petgraph_test_edges() {
    let mut g = DiGraph::<(), ()>::new();
    for _ in 0..4 {
        g.add_node(());
    }

    let edges: Vec<_> = Graph::edges(&from_petgraph(&g));
    assert_eq!(edges, vec![]);

    g.add_edge(0.into(), 1.into(), ());
    g.add_edge(1.into(), 2.into(), ());
    g.add_edge(2.into(), 3.into(), ());

    let edges: Vec<_> = Graph::edges(&from_petgraph(&g));
    assert_eq!(edges, vec![(0, 1), (1, 2), (2, 3)]);
}

#[test]
fn test_successors() {
    let mut g = DiGraph::<(), ()>::new();
    for _ in 0..3 {
        g.add_node(());
    }

    g.add_edge(0.into(), 1.into(), ());
    g.add_edge(0.into(), 2.into(), ());

    let mut successors: Vec<_> = Graph::successors(&from_petgraph(&g), 0);
    successors.sort();
    assert_eq!(successors, vec![1, 2]);
}

#[test]
fn graph_builder_test_size() {
    let g: DirectedCsrGraph<usize> = GraphBuilder::new()
        .edges(vec![(0, 1), (1, 2), (2, 3)])
        .build();

    let size = Graph::size(&from_graph_builder(&g));
    assert_eq!(size, 4);
}

#[test]
fn graph_builder_test_edges() {
    let g: DirectedCsrGraph<usize> = GraphBuilder::new()
        .edges(vec![(0, 1), (1, 2)])
        .build();

    let edges: Vec<_> = Graph::edges(&from_graph_builder(&g));
    assert_eq!(edges, vec![(0, 1), (1, 2)]);
}
