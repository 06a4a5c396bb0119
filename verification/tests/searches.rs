use graph_core::{
    Astar, Bfs, Dfs, Directed, EdgeDescriptor, Event, Graph, IncidenceGraph, IncidenceList,
    MutableGraph, VertexDescriptor, Visitor,
};

#[test]
fn bfs() {
    let mut g = IncidenceList::<Directed, _, _>::new();

    let v0 = g.add_vertex("a");
    let v1 = g.add_vertex("b");
    let v2 = g.add_vertex("c");
    let v3 = g.add_vertex("d");
    let v4 = g.add_vertex("e");
    let v5 = g.add_vertex("f");
    let v6 = g.add_vertex("g");
    let v7 = g.add_vertex("h");
    let v8 = g.add_vertex("i");
    let v9 = g.add_vertex("j");

    g.add_edge(v0, v1, ());
    g.add_edge(v0, v4, ());
    g.add_edge(v1, v5, ());
    g.add_edge(v2, v0, ());
    g.add_edge(v2, v4, ());
    g.add_edge(v4, v1, ());
    g.add_edge(v4, v3, ());
    g.add_edge(v4, v6, ());
    g.add_edge(v5, v4, ());
    g.add_edge(v5, v4, ());
    g.add_edge(v6, v7, ());
    g.add_edge(v7, v3, ());
    g.add_edge(v7, v9, ());
    g.add_edge(v8, v7, ());
    g.add_edge(v9, v8, ());

    assert_eq!(Bfs::new().run(&v0, |&v| v == v9, &g), Some(vec![v0, v4, v6, v7, v9]));
    assert_eq!(Bfs::new().run(&v0, |&v| v == v2, &g), None);
}

#[test]
fn bfs_with_visitor() {
    struct MyVisitor {
        init: Vec<VertexDescriptor>,
        discovered: Vec<VertexDescriptor>,
        vertex_examined: Vec<VertexDescriptor>,
        edge_target_examined: Vec<VertexDescriptor>,
        tree_edge_target: Vec<VertexDescriptor>,
        non_tree_edge_target: Vec<VertexDescriptor>,
        finished: Vec<VertexDescriptor>,
    }

    impl MyVisitor {
        fn new() -> Self {
            Self {
                init: Vec::new(),
                discovered: Vec::new(),
                vertex_examined: Vec::new(),
                edge_target_examined: Vec::new(),
                tree_edge_target: Vec::new(),
                non_tree_edge_target: Vec::new(),
                finished: Vec::new(),
            }
        }
    }

    impl<G> Visitor<G, Event> for MyVisitor
    where
        G: Graph + IncidenceGraph,
    {
        fn visit(&mut self, e: &Event, graph: &G) {
            match e {
                &Event::InitializeVertex(v) => self.init.push(v),
                &Event::DiscoverVertex(v) => self.discovered.push(v),
                &Event::ExamineVertex(v) => self.vertex_examined.push(v),
                &Event::ExamineEdge(e) => self.edge_target_examined.push(graph.target(e)),
                &Event::TreeEdge(e) => self.tree_edge_target.push(graph.target(e)),
                &Event::NonTreeEdge(e) => self.non_tree_edge_target.push(graph.target(e)),
                &Event::FinishVertex(v) => self.finished.push(v),
                _ => (),
            }
        }
    }

    let mut g = IncidenceList::<Directed, _, _>::new();

    let v0 = g.add_vertex("a");
    let v1 = g.add_vertex("b");
    let v2 = g.add_vertex("c");
    let v3 = g.add_vertex("d");
    let v4 = g.add_vertex("e");
    let v5 = g.add_vertex("f");
    let v6 = g.add_vertex("g");
    let v7 = g.add_vertex("h");
    let v8 = g.add_vertex("i");
    let v9 = g.add_vertex("j");

    g.add_edge(v0, v1, ());
    g.add_edge(v0, v4, ());
    g.add_edge(v1, v5, ());
    g.add_edge(v2, v0, ());
    g.add_edge(v2, v4, ());
    g.add_edge(v4, v1, ());
    g.add_edge(v4, v3, ());
    g.add_edge(v4, v6, ());
    g.add_edge(v5, v4, ());
    g.add_edge(v5, v4, ());
    g.add_edge(v6, v7, ());
    g.add_edge(v7, v3, ());
    g.add_edge(v7, v9, ());
    g.add_edge(v8, v7, ());
    g.add_edge(v9, v8, ());

    let mut bfs = Bfs::with_visitor(MyVisitor::new());

    assert_eq!(bfs.run(&v0, |&v| v == v9, &g), Some(vec![v0, v4, v6, v7, v9]));
    assert_eq!(bfs.visitor_ref().init.len(), 10);
    assert_eq!(bfs.visitor_ref().discovered, vec![v0, v1, v4, v5, v3, v6, v7, v9]);
    assert_eq!(bfs.visitor_ref().vertex_examined, vec![v0, v1, v4, v5, v3, v6, v7, v9]);
    assert_eq!(
        bfs.visitor_ref().edge_target_examined,
        vec![v1, v4, v5, v1, v3, v6, v4, v7, v3, v9]
    );
    assert_eq!(bfs.visitor_ref().tree_edge_target, vec![v1, v4, v5, v3, v6, v7, v9]);
    assert_eq!(bfs.visitor_ref().non_tree_edge_target, vec![v1, v4, v3]);
    assert_eq!(bfs.visitor_ref().finished, vec![v0, v1, v4, v5, v3, v6, v7]);
}

#[test]
fn dfs() {
    let mut g = IncidenceList::<Directed, _, _>::new();

    let v0 = g.add_vertex("a");
    let v1 = g.add_vertex("b");
    let v2 = g.add_vertex("c");
    let v3 = g.add_vertex("d");
    let v4 = g.add_vertex("e");
    let v5 = g.add_vertex("f");
    let v6 = g.add_vertex("g");
    let v7 = g.add_vertex("h");
    let v8 = g.add_vertex("i");
    let v9 = g.add_vertex("j");

    g.add_edge(v0, v1, ());
    g.add_edge(v0, v4, ());
    g.add_edge(v1, v5, ());
    g.add_edge(v2, v0, ());
    g.add_edge(v2, v4, ());
    g.add_edge(v4, v1, ());
    g.add_edge(v4, v3, ());
    g.add_edge(v4, v6, ());
    g.add_edge(v5, v4, ());
    g.add_edge(v5, v4, ());
    g.add_edge(v6, v7, ());
    g.add_edge(v7, v3, ());
    g.add_edge(v7, v9, ());
    g.add_edge(v8, v7, ());
    g.add_edge(v9, v8, ());

    assert_eq!(Dfs::new().run(&v0, |&v| v == v9, &g), Some(vec![v0, v4, v6, v7, v9]));
    assert_eq!(Dfs::new().run(&v0, |&v| v == v2, &g), None);
}

#[test]
fn dfs_with_visitor() {
    struct MyVisitor {
        init: Vec<VertexDescriptor>,
        discovered: Vec<VertexDescriptor>,
        vertex_examined: Vec<VertexDescriptor>,
        edge_target_examined: Vec<VertexDescriptor>,
        tree_edge_target: Vec<VertexDescriptor>,
        non_tree_edge_target: Vec<VertexDescriptor>,
        finished: Vec<VertexDescriptor>,
    }

    impl MyVisitor {
        fn new() -> Self {
            Self {
                init: Vec::new(),
                discovered: Vec::new(),
                vertex_examined: Vec::new(),
                edge_target_examined: Vec::new(),
                tree_edge_target: Vec::new(),
                non_tree_edge_target: Vec::new(),
                finished: Vec::new(),
            }
        }
    }

    impl<G> Visitor<G, Event> for MyVisitor
    where
        G: IncidenceGraph,
    {
        fn visit(&mut self, e: &Event, graph: &G) {
            match e {
                &Event::InitializeVertex(v) => self.init.push(v),
                &Event::DiscoverVertex(v) => self.discovered.push(v),
                &Event::ExamineVertex(v) => self.vertex_examined.push(v),
                &Event::ExamineEdge(e) => self.edge_target_examined.push(graph.target(e)),
                &Event::TreeEdge(e) => self.tree_edge_target.push(graph.target(e)),
                &Event::NonTreeEdge(e) => self.non_tree_edge_target.push(graph.target(e)),
                &Event::FinishVertex(v) => self.finished.push(v),
                _ => (),
            }
        }
    }

    let mut g = IncidenceList::<Directed, _, _>::new();

    let v0 = g.add_vertex("a");
    let v1 = g.add_vertex("b");
    let v2 = g.add_vertex("c");
    let v3 = g.add_vertex("d");
    let v4 = g.add_vertex("e");
    let v5 = g.add_vertex("f");
    let v6 = g.add_vertex("g");
    let v7 = g.add_vertex("h");
    let v8 = g.add_vertex("i");
    let v9 = g.add_vertex("j");

    g.add_edge(v0, v1, ());
    g.add_edge(v0, v4, ());
    g.add_edge(v1, v5, ());
    g.add_edge(v2, v0, ());
    g.add_edge(v2, v4, ());
    g.add_edge(v4, v1, ());
    g.add_edge(v4, v3, ());
    g.add_edge(v4, v6, ());
    g.add_edge(v5, v4, ());
    g.add_edge(v5, v4, ());
    g.add_edge(v6, v7, ());
    g.add_edge(v7, v3, ());
    g.add_edge(v7, v9, ());
    g.add_edge(v8, v7, ());
    g.add_edge(v9, v8, ());

    let mut dfs = Dfs::with_visitor(MyVisitor::new());

    assert_eq!(dfs.run(&v0, |&v| v == v9, &g), Some(vec![v0, v4, v6, v7, v9]));
    assert_eq!(dfs.visitor_ref().init.len(), 10);
    assert_eq!(dfs.visitor_ref().discovered, vec![v0, v1, v4, v3, v6, v7, v9]);
    assert_eq!(dfs.visitor_ref().vertex_examined, vec![v0, v4, v6, v7, v9]);
    assert_eq!(dfs.visitor_ref().edge_target_examined, vec![v1, v4, v1, v3, v6, v7, v3, v9]);
    assert_eq!(dfs.visitor_ref().tree_edge_target, vec![v1, v4, v3, v6, v7, v9]);
    assert_eq!(dfs.visitor_ref().non_tree_edge_target, vec![v1, v3]);
    assert_eq!(dfs.visitor_ref().finished, vec![v0, v4, v6, v7]);
}

#[test]
fn astar() {
    let mut g = IncidenceList::<Directed, _, _>::new();

    let v0 = g.add_vertex(("s", 7u64));
    let v1 = g.add_vertex(("a", 6));
    let v2 = g.add_vertex(("b", 2));
    let v3 = g.add_vertex(("c", 1));
    let v4 = g.add_vertex(("g", 0));
    let v5 = g.add_vertex(("x", 0));

    g.add_edge(v0, v1, 1u64);
    g.add_edge(v0, v2, 4);
    g.add_edge(v1, v2, 2);
    g.add_edge(v1, v3, 5);
    g.add_edge(v1, v4, 12);
    g.add_edge(v2, v3, 2);
    g.add_edge(v3, v4, 3);

    assert_eq!(
        Astar::new().run(
            &v0,
            |&e, g: &IncidenceList<Directed, (&str, u64), u64>| *g.edge_property(e).unwrap(),
            |&v, g: &IncidenceList<Directed, (&str, u64), u64>| g.vertex_property(v).unwrap().1,
            |&v| v == v4,
            &g,
        ),
        Some(vec![v0, v1, v2, v3, v4])
    );
    assert_eq!(
        Astar::new().run(
            &v0,
            |&e, g: &IncidenceList<Directed, (&str, u64), u64>| *g.edge_property(e).unwrap(),
            |&v, g: &IncidenceList<Directed, (&str, u64), u64>| g.vertex_property(v).unwrap().1,
            |&v| v == v5,
            &g,
        ),
        None
    );
}

#[test]
fn astar_with_visitor() {
    struct MyVisitor {
        init: Vec<VertexDescriptor>,
        discovered: Vec<VertexDescriptor>,
        vertex_examined: Vec<VertexDescriptor>,
        edge_examined: Vec<EdgeDescriptor>,
        edge_relaxed: Vec<EdgeDescriptor>,
        edge_not_relaxed: Vec<EdgeDescriptor>,
        finished: Vec<VertexDescriptor>,
    }

    impl MyVisitor {
        fn new() -> Self {
            Self {
                init: Vec::new(),
                discovered: Vec::new(),
                vertex_examined: Vec::new(),
                edge_examined: Vec::new(),
                edge_relaxed: Vec::new(),
                edge_not_relaxed: Vec::new(),
                finished: Vec::new(),
            }
        }
    }

    impl<T> Visitor<T, Event> for MyVisitor
    where
        T: Graph,
    {
        fn visit(&mut self, e: &Event, _graph: &T) {
            match e {
                &Event::InitializeVertex(v) => self.init.push(v),
                &Event::DiscoverVertex(v) => self.discovered.push(v),
                &Event::ExamineVertex(v) => self.vertex_examined.push(v),
                &Event::ExamineEdge(e) => self.edge_examined.push(e),
                &Event::EdgeRelaxed(e) => self.edge_relaxed.push(e),
                &Event::EdgeNotRelaxed(e) => self.edge_not_relaxed.push(e),
                &Event::FinishVertex(v) => self.finished.push(v),
                _ => (),
            }
        }
    }

    let mut g = IncidenceList::<Directed, _, _>::new();

    let v0 = g.add_vertex(("s", 7u64));
    let v1 = g.add_vertex(("a", 6));
    let v2 = g.add_vertex(("b", 2));
    let v3 = g.add_vertex(("c", 1));
    let v4 = g.add_vertex(("g", 0));
    let _v5 = g.add_vertex(("x", 0));

    let e01 = g.add_edge(v0, v1, 1u64).unwrap();
    let e02 = g.add_edge(v0, v2, 4).unwrap();
    let e12 = g.add_edge(v1, v2, 2).unwrap();
    let e13 = g.add_edge(v1, v3, 5).unwrap();
    let e14 = g.add_edge(v1, v4, 12).unwrap();
    let e23 = g.add_edge(v2, v3, 2).unwrap();
    let e34 = g.add_edge(v3, v4, 3).unwrap();

    let mut astar = Astar::with_visitor(MyVisitor::new());

    assert_eq!(
        astar.run(
            &v0,
            |&e, g: &IncidenceList<Directed, (&str, u64), u64>| *g.edge_property(e).unwrap(),
            |&v, g: &IncidenceList<Directed, (&str, u64), u64>| g.vertex_property(v).unwrap().1,
            |&v| v == v4,
            &g,
        ),
        Some(vec![v0, v1, v2, v3, v4])
    );
    assert_eq!(astar.visitor_ref().init.len(), 6);
    assert_eq!(astar.visitor_ref().discovered, vec![v0, v1, v2, v3, v2, v4, v3, v4]);
    assert_eq!(astar.visitor_ref().vertex_examined, vec![v0, v2, v1, v2, v3, v3, v4]);
    assert_eq!(
        astar.visitor_ref().edge_examined,
        vec![e01, e02, e23, e12, e13, e14, e23, e34, e34]
    );
    assert_eq!(astar.visitor_ref().edge_relaxed, vec![e01, e02, e23, e12, e14, e23, e34]);
    assert_eq!(astar.visitor_ref().edge_not_relaxed, vec![e13, e34]);
    assert_eq!(astar.visitor_ref().finished, vec![v0, v2, v1, v2, v3, v3]);
}
