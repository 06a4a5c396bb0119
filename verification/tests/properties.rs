use std::collections::HashMap;

use graph_core::{
    reverse_path, AdjacencyGraph, AdjacencyMatrixGraph, Astar, Bfs, Directed, EdgeListGraph,
    FromUsize, Graph, IncidenceGraph, IncidenceList, MutableGraph, Undirected, VertexDescriptor,
    VertexListGraph,
};

// Read operations never mutate storage and are safe to repeat: two identical
// queries agree, and counts are unchanged afterwards.
#[test]
fn read_operations_are_idempotent() {
    let mut g = IncidenceList::<Directed, isize, u64>::new();
    let v1 = g.add_vertex(10);
    let v2 = g.add_vertex(20);
    let v3 = g.add_vertex(30);
    let e12 = g.add_edge(v1, v2, 5).unwrap();
    let _e13 = g.add_edge(v1, v3, 6).unwrap();

    assert_eq!(g.vertex_property(v1), g.vertex_property(v1));
    assert_eq!(g.edge_property(e12), g.edge_property(e12));
    assert_eq!(g.adjacent_vertices(v1), g.adjacent_vertices(v1));
    assert_eq!(g.out_edges(v1), g.out_edges(v1));
    assert_eq!(g.out_degree(v1), g.out_degree(v1));
    assert_eq!(g.edge(v1, v2), g.edge(v1, v2));
    assert_eq!(g.vertices(), g.vertices());
    assert_eq!(g.edges(), g.edges());
    assert_eq!(g.order(), 3);
    assert_eq!(g.size(), 2);
}

// Adjacency enumeration is sorted and duplicate-free, even with parallel
// edges, and symmetric for undirected storage.
#[test]
fn adjacency_sorted_and_symmetric() {
    let mut g = IncidenceList::<Undirected, isize, u64>::new();
    let v1 = g.add_vertex(1);
    let v2 = g.add_vertex(2);
    let v3 = g.add_vertex(3);
    g.add_edge(v3, v1, 0).unwrap();
    g.add_edge(v1, v3, 0).unwrap();
    g.add_edge(v3, v1, 0).unwrap();
    g.add_edge(v2, v1, 0).unwrap();

    let adj = g.adjacent_vertices(v1);
    assert_eq!(adj, vec![v2, v3]);

    // symmetry: every neighbour of v1 lists v1 back
    for &w in &adj {
        assert!(g.adjacent_vertices(w).contains(&v1));
    }

    let mut gd = IncidenceList::<Directed, isize, u64>::new();
    let d1 = gd.add_vertex(1);
    let d2 = gd.add_vertex(2);
    let d3 = gd.add_vertex(3);
    gd.add_edge(d1, d3, 0).unwrap();
    gd.add_edge(d1, d2, 0).unwrap();
    gd.add_edge(d1, d3, 0).unwrap();
    assert_eq!(gd.adjacent_vertices(d1), vec![d2, d3]);
}

// With the zero heuristic the best-first search must agree with the plain
// cheapest-route result on the weighted scenario graph.
#[test]
fn astar_zero_heuristic() {
    let mut g = IncidenceList::<Directed, &str, u64>::new();

    let v0 = g.add_vertex("s");
    let v1 = g.add_vertex("a");
    let v2 = g.add_vertex("b");
    let v3 = g.add_vertex("c");
    let v4 = g.add_vertex("g");
    let v5 = g.add_vertex("x");

    g.add_edge(v0, v1, 1u64);
    g.add_edge(v0, v2, 4);
    g.add_edge(v1, v2, 2);
    g.add_edge(v1, v3, 5);
    g.add_edge(v1, v4, 12);
    g.add_edge(v2, v3, 2);
    g.add_edge(v3, v4, 3);

    assert_eq!(
        Astar::new().run(
            &v0,
            |&e, g: &IncidenceList<Directed, &str, u64>| *g.edge_property(e).unwrap(),
            |_, _: &IncidenceList<Directed, &str, u64>| 0u64,
            |&v| v == v4,
            &g,
        ),
        Some(vec![v0, v1, v2, v3, v4])
    );
    assert_eq!(
        Astar::new().run(
            &v0,
            |&e, g: &IncidenceList<Directed, &str, u64>| *g.edge_property(e).unwrap(),
            |_, _: &IncidenceList<Directed, &str, u64>| 0u64,
            |&v| v == v5,
            &g,
        ),
        None
    );
}

// The breadth-first route has the minimum number of edges: the direct
// two-edge route wins over the three-edge detour.
#[test]
fn bfs_finds_fewest_edges() {
    let mut g = IncidenceList::<Directed, &str, ()>::new();
    let v0 = g.add_vertex("s");
    let v1 = g.add_vertex("m");
    let d1 = g.add_vertex("d1");
    let d2 = g.add_vertex("d2");
    let v9 = g.add_vertex("t");
    // long way round
    g.add_edge(v0, d1, ());
    g.add_edge(d1, d2, ());
    g.add_edge(d2, v9, ());
    // short way
    g.add_edge(v0, v1, ());
    g.add_edge(v1, v9, ());

    let p = Bfs::new().run(&v0, |&v| v == v9, &g).unwrap();
    assert_eq!(p.len(), 3);
    assert_eq!(p, vec![v0, v1, v9]);
}

// Edge insertion fails, with no partial mutation, when an endpoint does not
// resolve to a live vertex; removal of a stale descriptor fails the same
// way.
#[test]
fn stale_descriptors_are_rejected() {
    let mut g = IncidenceList::<Directed, isize, u64>::new();
    let v1 = g.add_vertex(1);
    let v2 = g.add_vertex(2);
    let e12 = g.add_edge(v1, v2, 7).unwrap();

    let ghost_vertex = VertexDescriptor::from_usize(17);
    assert_eq!(g.add_edge(v1, ghost_vertex, 9), None);
    assert_eq!(g.add_edge(ghost_vertex, v2, 9), None);
    assert_eq!(g.size(), 1);
    assert_eq!(g.vertex_property(ghost_vertex), None);
    assert_eq!(g.remove_vertex(ghost_vertex), None);

    assert_eq!(g.remove_edge(e12), Some(7));
    assert_eq!(g.remove_edge(e12), None);
    assert_eq!(g.edge_property(e12), None);
    assert_eq!(g.order(), 2);
    assert_eq!(g.size(), 0);
}

// Replacing a property hands the old value back and stores the new one;
// replacing through a stale descriptor changes nothing.
#[test]
fn property_replacement() {
    let mut g = IncidenceList::<Directed, isize, u64>::new();
    let v1 = g.add_vertex(1);
    let v2 = g.add_vertex(2);
    let e12 = g.add_edge(v1, v2, 7).unwrap();

    assert_eq!(g.vertex_property_mut(v1, 100), Some(1));
    assert_eq!(g.vertex_property(v1), Some(&100));
    assert_eq!(g.edge_property_mut(e12, 70), Some(7));
    assert_eq!(g.edge_property(e12), Some(&70));
    assert_eq!(g.source(e12), v1);
    assert_eq!(g.target(e12), v2);

    let ghost_vertex = VertexDescriptor::from_usize(17);
    assert_eq!(g.vertex_property_mut(ghost_vertex, 0), None);
    assert_eq!(g.order(), 2);
}

// Removing a vertex also removes every edge incident to it, a self-loop
// included, and nothing else.
#[test]
fn remove_vertex_with_self_loop() {
    let mut g = IncidenceList::<Directed, isize, u64>::new();
    let v1 = g.add_vertex(1);
    let v2 = g.add_vertex(2);
    let v3 = g.add_vertex(3);
    g.add_edge(v2, v2, 0).unwrap();
    g.add_edge(v1, v2, 1).unwrap();
    g.add_edge(v2, v3, 2).unwrap();
    let e13 = g.add_edge(v1, v3, 3).unwrap();

    assert_eq!(g.remove_vertex(v2), Some(2));
    assert_eq!(g.order(), 2);
    assert_eq!(g.size(), 1);
    assert_eq!(g.edge_property(e13), Some(&3));
    assert_eq!(g.out_degree(v1), 1);
}

// Round trip for edges alone: inserting edges among live vertices and
// removing them all returns the size to zero without affecting the order.
#[test]
fn edge_round_trip() {
    let mut g = IncidenceList::<Undirected, isize, u64>::new();
    let v1 = g.add_vertex(1);
    let v2 = g.add_vertex(2);
    let v3 = g.add_vertex(3);
    let mut es = Vec::new();
    es.push(g.add_edge(v1, v2, 12).unwrap());
    es.push(g.add_edge(v2, v3, 23).unwrap());
    es.push(g.add_edge(v3, v1, 31).unwrap());
    es.push(g.add_edge(v1, v1, 11).unwrap());
    assert_eq!(g.size(), 4);
    for e in es {
        assert!(g.remove_edge(e).is_some());
    }
    assert_eq!(g.size(), 0);
    assert_eq!(g.order(), 3);
    assert_eq!(g.vertex_property(v2), Some(&2));
}

// The capacity-reserving constructors all make an empty storage.
#[test]
fn reserving_constructors() {
    let a = IncidenceList::<Directed, isize, u64>::with_order(16);
    assert_eq!(a.order(), 0);
    assert_eq!(a.size(), 0);
    let b = IncidenceList::<Directed, isize, u64>::with_size(16);
    assert_eq!(b.order(), 0);
    assert_eq!(b.size(), 0);
    let mut c = IncidenceList::<Directed, isize, u64>::with_order_size(4, 4);
    assert_eq!(c.order(), 0);
    assert_eq!(c.size(), 0);
    let v = c.add_vertex(9);
    assert_eq!(c.vertex_property(v), Some(&9));
}

// Path reconstruction walks the parent map from the goal and returns the
// reversed route.
#[test]
fn reverse_path_walks_parents() {
    let mut parents: HashMap<usize, usize> = HashMap::new();
    parents.insert(2, 1);
    parents.insert(1, 0);
    let p = reverse_path(&parents, VertexDescriptor::from_usize(2));
    assert_eq!(
        p,
        vec![
            VertexDescriptor::from_usize(0),
            VertexDescriptor::from_usize(1),
            VertexDescriptor::from_usize(2),
        ]
    );

    let empty: HashMap<usize, usize> = HashMap::new();
    let q = reverse_path(&empty, VertexDescriptor::from_usize(5));
    assert_eq!(q, vec![VertexDescriptor::from_usize(5)]);
}

// A search whose start vertex already satisfies the goal returns the
// one-vertex route.
#[test]
fn start_is_goal() {
    let mut g = IncidenceList::<Directed, &str, ()>::new();
    let v0 = g.add_vertex("s");
    let v1 = g.add_vertex("t");
    g.add_edge(v0, v1, ());
    assert_eq!(Bfs::new().run(&v0, |&v| v == v0, &g), Some(vec![v0]));
}
