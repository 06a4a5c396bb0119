//! A generic in-memory graph library: opaque vertex/edge descriptors, a
//! hierarchy of capability traits that search algorithms are written against,
//! an arena-backed incidence-list storage implementing all of them, a
//! visitor/event protocol, and three traversal algorithms (breadth-first,
//! depth-first, and heuristic best-first search).

pub mod arena;
pub mod astar_search;
pub mod graph;
pub mod incidence_list;
pub mod breadth_first_search;
pub mod depth_first_search;
pub mod path;
pub mod visitor;

pub use graph::{
    AdjacencyGraph, AdjacencyMatrixGraph, BidirectionalGraph, Directed, Directivity,
    EdgeDescriptor, EdgeListGraph, FromUsize, Graph, IncidenceGraph, MutableGraph, Undirected,
    VertexDescriptor, VertexListGraph,
};
pub use incidence_list::{Edge, EdgeKind, IncidenceList, Vertex, VertexKind};
pub use astar_search::Astar;
pub use breadth_first_search::Bfs;
pub use depth_first_search::Dfs;
pub use path::reverse_path;
pub use visitor::{DefaultVisitor, Event, Visitor};
