//! The visitor/event protocol: a single-method observer interface, the
//! vocabulary of traversal events, and the no-op default observer. Events
//! are emitted synchronously, in the exact order state transitions occur.

use vstd::prelude::*;

use crate::graph::{EdgeDescriptor, Graph, VertexDescriptor};

verus! {

/// A single-method observer receiving one tagged event per call.
pub trait Visitor<G: Graph, T> {
    fn visit(&mut self, e: &T, graph: &G);
}

/// One traversal event. The algorithms in this crate emit the vertex
/// events, `ExamineEdge`, `TreeEdge`/`NonTreeEdge` (breadth- and
/// depth-first search) and `EdgeRelaxed`/`EdgeNotRelaxed` (best-first
/// search); the remaining variants are defined for other algorithms.
pub enum Event {
    InitializeVertex(VertexDescriptor),
    StartVertex(VertexDescriptor),
    DiscoverVertex(VertexDescriptor),
    FinishVertex(VertexDescriptor),
    ExamineVertex(VertexDescriptor),
    ExamineEdge(EdgeDescriptor),
    TreeEdge(EdgeDescriptor),
    NonTreeEdge(EdgeDescriptor),
    GrayTarget(EdgeDescriptor),
    BlackTarget(EdgeDescriptor),
    ForwardOrCrossEdge(EdgeDescriptor),
    BackEdge(EdgeDescriptor),
    FinishEdge(EdgeDescriptor),
    EdgeRelaxed(EdgeDescriptor),
    EdgeNotRelaxed(EdgeDescriptor),
    EdgeMinimized(EdgeDescriptor),
    EdgeNotMinimized(EdgeDescriptor),
}

/// An observer that ignores every event.
pub struct DefaultVisitor;

impl<G: Graph> Visitor<G, Event> for DefaultVisitor {
    fn visit(&mut self, _e: &Event, _g: &G) {
    }
}

} // verus!
