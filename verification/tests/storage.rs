use std::collections::HashSet;

use graph_core::{
    AdjacencyGraph, AdjacencyMatrixGraph, BidirectionalGraph, Directed, EdgeListGraph, Graph,
    IncidenceGraph, IncidenceList, MutableGraph, Undirected, VertexListGraph,
};

#[test]
fn vertex_attribute() {
    let mut g = IncidenceList::<Directed, usize, String>::new();

    let v1 = g.add_vertex(42);
    let v2 = g.add_vertex(13);
    let v3 = g.add_vertex(1337);

    assert!(g.vertices().iter().any(|&x| (v1 != x) ^ (g.vertex_property(x) == Some(&42))));
    assert!(g.vertices().iter().any(|&x| (v2 != x) ^ (g.vertex_property(x) == Some(&13))));
    assert!(g.vertices().iter().any(|&x| (v3 != x) ^ (g.vertex_property(x) == Some(&1337))));
    assert!(g.vertices().iter().any(|&x| g.vertex_property(x) != Some(&69)));
}

#[test]
fn general_usage() {
    let mut g = IncidenceList::<Directed, isize, String>::new();

    let v1 = g.add_vertex(3);
    let v2 = g.add_vertex(5);
    let v3 = g.add_vertex(7);

    let e12 = g.add_edge(v1, v2, "a".into());
    let e23 = g.add_edge(v2, v3, "b".into());
    let e31 = g.add_edge(v3, v1, "c".into());

    // V1 <--E31--- V3
    // |            ^
    // E12          |
    // |            |
    // v            |
    // V2 ---E23----+

    assert!(e12.is_some() && e23.is_some() && e31.is_some());
    assert!(v1 != v2);
    assert!(v1 != v3);
    assert!(v2 != v3);

    assert!(e12 != e23);
    assert!(e12 != e31);
    assert!(e23 != e31);

    assert!(g.vertex_property(v1) == Some(&3));
    assert!(g.vertex_property(v2) == Some(&5));
    assert!(g.vertex_property(v3) == Some(&7));

    assert!(g.edge_property(e12.unwrap()) == Some(&"a".to_string()));
    assert!(g.edge_property(e23.unwrap()) == Some(&"b".to_string()));
    assert!(g.edge_property(e31.unwrap()) == Some(&"c".to_string()));

    assert_eq!(g.size(), 3);
    assert_eq!(g.order(), 3);

    assert_eq!(g.source(e12.unwrap()), v1);
    assert_eq!(g.target(e12.unwrap()), v2);
    assert_eq!(g.source(e23.unwrap()), v2);
    assert_eq!(g.target(e23.unwrap()), v3);
    assert_eq!(g.source(e31.unwrap()), v3);
    assert_eq!(g.target(e31.unwrap()), v1);

    assert_eq!(g.out_degree(v1), 1);
    assert_eq!(g.out_degree(v2), 1);
    assert_eq!(g.out_degree(v3), 1);

    assert!(g.remove_edge(e12.unwrap()).is_some());

    assert!(g.remove_vertex(v1).is_some());
    assert!(g.remove_vertex(v2).is_some());
    assert!(g.remove_vertex(v3).is_some());

    assert_eq!(g.order(), 0);
    assert_eq!(g.size(), 0);
}

#[test]
fn degree() {
    let mut g = IncidenceList::<Directed, Option<isize>, String>::new();

    let v1 = g.add_vertex(Some(3));
    let v2 = g.add_vertex(None);
    let v3 = g.add_vertex(Some(3));

    assert!(g.add_edge(v1, v2, "a".into()) != None);
    let e23 = g.add_edge(v2, v3, "b".into());
    assert!(e23.is_some());
    assert!(g.add_edge(v3, v1, "c".into()) != None);

    // V1 <------- V3
    // |           ^
    // |           |
    // v           |
    // V2 ---E23---+

    assert_eq!(g.out_degree(v1), 1);
    assert_eq!(g.out_degree(v2), 1);
    assert_eq!(g.out_degree(v3), 1);

    assert_eq!(g.in_degree(v1), 1);
    assert_eq!(g.in_degree(v2), 1);
    assert_eq!(g.in_degree(v3), 1);

    let v4 = g.add_vertex(Some(3));
    assert!(g.add_edge(v4, v1, "d".to_string()) != None);

    // V4
    // |
    // |
    // v
    // V1 <------- V3
    // |           ^
    // |           |
    // v           |
    // V2 ---E23---+

    assert_eq!(g.in_degree(v1), 2);
    assert_eq!(g.in_degree(v2), 1);
    assert_eq!(g.in_degree(v3), 1);
    assert_eq!(g.in_degree(v4), 0);

    assert_eq!(g.out_degree(v1), 1);
    assert_eq!(g.out_degree(v2), 1);
    assert_eq!(g.out_degree(v3), 1);
    assert_eq!(g.out_degree(v4), 1);

    assert!(g.remove_edge(e23.unwrap()).is_some());
    g.add_edge(v3, v2, "d1".to_string());
    let v5 = g.add_vertex(None);
    g.add_edge(v2, v5, "d2".to_string());
    g.add_edge(v5, v3, "d3".to_string());
    g.add_edge(v5, v4, "d4".to_string());

    // V4 <-------------------+
    // |                      |
    // |                      |
    // v                      |
    // V1 <------- V3 <-------+
    // |           |          |
    // |           |          |
    // v           |          |
    // V2 <--------+          |
    // |                      |
    // |                      |
    // +--------------------> V5

    assert_eq!(g.in_degree(v1), 2);
    assert_eq!(g.in_degree(v2), 2);
    assert_eq!(g.in_degree(v3), 1);
    assert_eq!(g.in_degree(v4), 1);
    assert_eq!(g.in_degree(v5), 1);

    assert_eq!(g.out_degree(v1), 1);
    assert_eq!(g.out_degree(v2), 1);
    assert_eq!(g.out_degree(v3), 2);
    assert_eq!(g.out_degree(v4), 1);
    assert_eq!(g.out_degree(v5), 2);

    assert_eq!(g.size(), 7);
}

#[test]
fn out_iterator() {
    let mut g = IncidenceList::<Directed, isize, String>::new();

    let v1 = g.add_vertex(3);
    let v2 = g.add_vertex(5);
    let v3 = g.add_vertex(7);
    let v4 = g.add_vertex(11);

    let e12 = g.add_edge(v1, v2, "a".into());
    let e23 = g.add_edge(v2, v3, "b".into());
    let e21 = g.add_edge(v2, v1, "c".into());
    let e14 = g.add_edge(v1, v4, "d".into());

    // +--> V1 ---E14--> V4
    // |    |
    // E21  E12
    // |    |
    // |    v
    // +--- V2 ---E23--> V3

    assert!(e12.is_some() && e23.is_some() && e21.is_some() && e14.is_some());

    let i = g.out_edges(v1);
    assert!(i == vec![e12.unwrap(), e14.unwrap()] || i == vec![e14.unwrap(), e12.unwrap()]);

    let i = g.out_edges(v2);
    assert!(i == vec![e23.unwrap(), e21.unwrap()] || i == vec![e21.unwrap(), e23.unwrap()]);

    assert_eq!(g.out_edges(v3).first(), None);
    assert_eq!(g.out_edges(v4).first(), None);
}

#[test]
fn in_iterator() {
    let mut g = IncidenceList::<Directed, isize, String>::new();

    let v1 = g.add_vertex(3);
    let v2 = g.add_vertex(5);
    let v3 = g.add_vertex(7);
    let v4 = g.add_vertex(11);

    let e12 = g.add_edge(v1, v2, "a".into());
    let e23 = g.add_edge(v2, v3, "b".into());
    let e21 = g.add_edge(v2, v1, "c".into());
    let e14 = g.add_edge(v1, v4, "d".into());

    // +--> V1 ---E14--> V4
    // |    |
    // E21  E12
    // |    |
    // |    v
    // +--- V2 ---E23--> V3

    assert!(e12.is_some() && e23.is_some() && e21.is_some() && e14.is_some());

    let i = g.in_edges(v1);
    assert!(i == vec![e21.unwrap()]);

    let i = g.in_edges(v2);
    assert!(i == vec![e12.unwrap()]);

    let i = g.in_edges(v3);
    assert!(i == vec![e23.unwrap()]);

    let i = g.in_edges(v4);
    assert!(i == vec![e14.unwrap()]);
}

#[test]
fn adj_iterator_on_directed_graph() {
    let mut g = IncidenceList::<Directed, isize, String>::new();

    let v1 = g.add_vertex(3);
    let v2 = g.add_vertex(5);
    let v3 = g.add_vertex(7);
    let v4 = g.add_vertex(11);

    g.add_edge(v1, v2, "a".into());
    g.add_edge(v2, v3, "b".into());
    g.add_edge(v2, v1, "c".into());
    g.add_edge(v1, v4, "d".into());

    // +--> V1 ---E14--> V4
    // |    |
    // E21  E12
    // |    |
    // |    v
    // +--- V2 ---E23--> V3

    let i = g.adjacent_vertices(v1);
    assert!(i == vec![v2, v4] || i == vec![v4, v2]);

    let i = g.adjacent_vertices(v2);
    assert!(i == vec![v1, v3] || i == vec![v3, v1]);

    let i = g.adjacent_vertices(v3);
    assert!(i == vec![]);

    let i = g.adjacent_vertices(v4);
    assert!(i == vec![]);
}

#[test]
fn adj_iterator_on_undirected_graph() {
    let mut g = IncidenceList::<Undirected, isize, String>::new();

    let v1 = g.add_vertex(3);
    let v2 = g.add_vertex(5);
    let v3 = g.add_vertex(7);
    let v4 = g.add_vertex(11);

    g.add_edge(v1, v2, "a".into());
    g.add_edge(v2, v3, "b".into());
    g.add_edge(v2, v1, "c".into());
    g.add_edge(v1, v4, "d".into());

    // +--- V1 ---E14--- V4
    // |    |
    // E21  E12
    // |    |
    // +--- V2 ---E23--- V3

    let i = g.adjacent_vertices(v1);
    assert!(i == vec![v2, v4] || i == vec![v4, v2]);

    let i = g.adjacent_vertices(v2);
    assert!(i == vec![v1, v3] || i == vec![v3, v1]);

    let i = g.adjacent_vertices(v3);
    assert!(i == vec![v2]);

    let i = g.adjacent_vertices(v4);
    assert!(i == vec![v1]);
}

#[test]
fn vertices_edges_iterators() {
    let mut g = IncidenceList::<Directed, isize, String>::new();

    let v1 = g.add_vertex(3);
    let v2 = g.add_vertex(5);
    let v3 = g.add_vertex(7);
    let v4 = g.add_vertex(11);

    let e12 = g.add_edge(v1, v2, "a".into());
    let e23 = g.add_edge(v2, v3, "b".into());
    let e21 = g.add_edge(v2, v1, "c".into());
    let e14 = g.add_edge(v1, v4, "d".into());

    // +--> V1 ---E14--> V4
    // |    |
    // E21  E12
    // |    |
    // |    v
    // +--- V2 ---E23--> V3

    assert!(e12.is_some() && e23.is_some() && e21.is_some() && e14.is_some());

    let vs = g.vertices().into_iter().collect::<HashSet<_>>();
    assert!(vs.contains(&v1) && vs.contains(&v2) && vs.contains(&v3) && vs.contains(&v4));
    assert_eq!(vs.len(), 4);

    let es = g.edges().into_iter().collect::<HashSet<_>>();
    assert!(
        es.contains(&e12.unwrap()) && es.contains(&e23.unwrap()) && es.contains(&e21.unwrap())
            && es.contains(&e14.unwrap())
    );
    assert_eq!(es.len(), 4);
}

#[test]
fn duplicate_label() {
    let mut g = IncidenceList::<Directed, isize, String>::new();

    let v1 = g.add_vertex(3);
    let v2 = g.add_vertex(5);
    let v3 = g.add_vertex(7);

    let e12 = g.add_edge(v1, v2, "a".into());
    let e23 = g.add_edge(v2, v3, "b".into());

    // V1          V3
    // |           ^
    // |           |
    // v           |
    // V2 ---------+

    assert!(e12.is_some() && e23.is_some());

    assert_eq!(g.order(), 3);
    assert_eq!(g.size(), 2);
}

#[test]
fn remove_edge_from_node_with_multiple_out_edges() {
    let mut g = IncidenceList::<Directed, isize, String>::new();

    let v1 = g.add_vertex(3);
    let v2 = g.add_vertex(5);
    let v3 = g.add_vertex(7);

    let e12 = g.add_edge(v1, v2, "a".into());
    let e13 = g.add_edge(v1, v3, "b".into());

    // V1 -------> V3
    // |
    // |
    // v
    // V2

    assert!(e12.is_some() && e13.is_some());

    assert_eq!(g.size(), 2);
    assert_eq!(g.order(), 3);

    assert!(g.remove_edge(e12.unwrap()).is_some());

    // V1 -------> V3
    //
    //
    //
    // V2

    assert_eq!(g.out_degree(v1), 1);
    assert_eq!(g.size(), 1);
    assert_eq!(g.order(), 3);
}

#[test]
fn edge_on_directed_graph() {
    let mut g = IncidenceList::<Directed, isize, String>::new();

    let v1 = g.add_vertex(3);
    let v2 = g.add_vertex(5);
    let v3 = g.add_vertex(7);
    let v4 = g.add_vertex(11);

    let e12 = g.add_edge(v1, v2, "a".into());
    let e23 = g.add_edge(v2, v3, "b".into());
    let e21 = g.add_edge(v2, v1, "c".into());
    let e14 = g.add_edge(v1, v4, "d".into());

    // +--> V1 ---E14--> V4
    // |    |
    // E21  E12
    // |    |
    // |    v
    // +--- V2 ---E23--> V3

    assert!(e12.is_some() && e23.is_some() && e21.is_some() && e14.is_some());

    assert_eq!(g.edge(v1, v1), None);
    assert_eq!(g.edge(v1, v2), e12);
    assert_eq!(g.edge(v1, v3), None);
    assert_eq!(g.edge(v1, v4), e14);
    assert_eq!(g.edge(v2, v1), e21);
    assert_eq!(g.edge(v2, v2), None);
    assert_eq!(g.edge(v2, v3), e23);
    assert_eq!(g.edge(v2, v4), None);
    assert_eq!(g.edge(v3, v1), None);
    assert_eq!(g.edge(v3, v2), None);
    assert_eq!(g.edge(v3, v3), None);
    assert_eq!(g.edge(v3, v4), None);
    assert_eq!(g.edge(v4, v1), None);
    assert_eq!(g.edge(v4, v2), None);
    assert_eq!(g.edge(v4, v3), None);
    assert_eq!(g.edge(v4, v4), None);
}

#[test]
fn edge_on_undirected_graph() {
    let mut g = IncidenceList::<Undirected, isize, String>::new();

    let v1 = g.add_vertex(3);
    let v2 = g.add_vertex(5);
    let v3 = g.add_vertex(7);
    let v4 = g.add_vertex(11);

    let e12 = g.add_edge(v1, v2, "a".into());
    let e23 = g.add_edge(v2, v3, "b".into());
    let e22 = g.add_edge(v2, v2, "c".into());
    let e14 = g.add_edge(v1, v4, "d".into());

    //   V1 ---E14--- V4
    //   |
    //   E12
    //   |
    //   V2 ---E23--- V3
    //  / \
    // /   \
    // \   /
    //  E22

    assert!(e12.is_some() && e23.is_some() && e22.is_some() && e14.is_some());

    assert_eq!(g.edge(v1, v1), None);
    assert_eq!(g.edge(v1, v2), e12);
    assert_eq!(g.edge(v1, v3), None);
    assert_eq!(g.edge(v1, v4), e14);
    assert_eq!(g.edge(v2, v1), e12);
    assert_eq!(g.edge(v2, v2), e22);
    assert_eq!(g.edge(v2, v3), e23);
    assert_eq!(g.edge(v2, v4), None);
    assert_eq!(g.edge(v3, v1), None);
    assert_eq!(g.edge(v3, v2), e23);
    assert_eq!(g.edge(v3, v3), None);
    assert_eq!(g.edge(v3, v4), None);
    assert_eq!(g.edge(v4, v1), e14);
    assert_eq!(g.edge(v4, v2), None);
    assert_eq!(g.edge(v4, v3), None);
    assert_eq!(g.edge(v4, v4), None);
}
