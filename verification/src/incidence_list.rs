//! The reference storage: vertices and edges held in slot-reusing arenas.
//! Incidence and adjacency are derived from the edge records, so the whole
//! model of a storage value is the three maps named in the `Graph` trait.

use core::marker::PhantomData;

use vstd::prelude::*;

use crate::arena::Arena;
use crate::graph::{
    adjacent, connects, edge_ids, lemma_edge_ids_push, lemma_sorted_strict_no_duplicates,
    remove_incident, sorted_strict, vertex_ids, AdjacencyGraph, AdjacencyMatrixGraph,
    BidirectionalGraph, Directivity, EdgeDescriptor, EdgeListGraph, FromUsize, Graph,
    IncidenceGraph, MutableGraph, VertexDescriptor, VertexListGraph,
};

verus! {

broadcast use vstd::set::axiom_set_insert_len, vstd::set::axiom_set_remove_len,
    vstd::set::axiom_set_insert_finite, vstd::set::axiom_set_remove_finite,
    vstd::set::axiom_set_contains_len, vstd::set::axiom_set_empty_len,
    vstd::set::axiom_set_empty_finite;

/// A vertex record: the application-supplied property. Owned exclusively by
/// the arena.
#[derive(Clone, Debug)]
pub struct Vertex<VP> {
    property: VP,
}

/// An edge record: the source and target vertex slots and the
/// application-supplied property. Owned exclusively by the arena; the
/// endpoints, once set, never change.
#[derive(Clone, Debug)]
pub struct Edge<EP> {
    source: usize,
    property: EP,
    target: usize,
}

/// Which incidence chain of a vertex an enumeration walks.
#[derive(Clone, Debug, Hash)]
pub enum EdgeKind {
    Outgoing,
    Incoming,
}

/// Which endpoint of an incident edge an enumeration yields.
#[derive(Clone, Debug, Hash)]
pub enum VertexKind {
    Predecessor,
    Successor,
}

/// Arena-indexed incidence-list storage: the reference implementation of
/// every capability trait. `D` is the compile-time directivity tag.
pub struct IncidenceList<D, VP, EP> {
    vertices: Arena<Vertex<VP>>,
    edges: Arena<Edge<EP>>,
    marker: PhantomData<D>,
}

impl<D: Directivity, VP, EP> IncidenceList<D, VP, EP> {
    /// An empty storage.
    pub fn new() -> (r: Self)
        ensures
            r.wf(),
            r.vprops() == Map::<usize, VP>::empty(),
            r.eprops() == Map::<usize, EP>::empty(),
            r.links() == Map::<usize, (usize, usize)>::empty(),
            r.directed() == D::directed_spec(),
    {
        let r = IncidenceList { vertices: Arena::new(), edges: Arena::new(), marker: PhantomData };
        proof {
            assert(r.vprops() =~= Map::<usize, VP>::empty());
            assert(r.eprops() =~= Map::<usize, EP>::empty());
            assert(r.links() =~= Map::<usize, (usize, usize)>::empty());
        }
        r
    }

    /// An empty storage with capacity reserved for `order` vertices.
    pub fn with_order(order: usize) -> (r: Self)
        ensures
            r.wf(),
            r.vprops() == Map::<usize, VP>::empty(),
            r.eprops() == Map::<usize, EP>::empty(),
            r.links() == Map::<usize, (usize, usize)>::empty(),
            r.directed() == D::directed_spec(),
    {
        let r = IncidenceList {
            vertices: Arena::with_capacity(order),
            edges: Arena::new(),
            marker: PhantomData,
        };
        proof {
            assert(r.vprops() =~= Map::<usize, VP>::empty());
            assert(r.eprops() =~= Map::<usize, EP>::empty());
            assert(r.links() =~= Map::<usize, (usize, usize)>::empty());
        }
        r
    }

    /// An empty storage with capacity reserved for `order` vertices and
    /// `size` edges.
    pub fn with_order_size(order: usize, size: usize) -> (r: Self)
        ensures
            r.wf(),
            r.vprops() == Map::<usize, VP>::empty(),
            r.eprops() == Map::<usize, EP>::empty(),
            r.links() == Map::<usize, (usize, usize)>::empty(),
            r.directed() == D::directed_spec(),
    {
        let r = IncidenceList {
            vertices: Arena::with_capacity(order),
            edges: Arena::with_capacity(size),
            marker: PhantomData,
        };
        proof {
            assert(r.vprops() =~= Map::<usize, VP>::empty());
            assert(r.eprops() =~= Map::<usize, EP>::empty());
            assert(r.links() =~= Map::<usize, (usize, usize)>::empty());
        }
        r
    }

    /// An empty storage with capacity reserved for `size` edges.
    pub fn with_size(size: usize) -> (r: Self)
        ensures
            r.wf(),
            r.vprops() == Map::<usize, VP>::empty(),
            r.eprops() == Map::<usize, EP>::empty(),
            r.links() == Map::<usize, (usize, usize)>::empty(),
            r.directed() == D::directed_spec(),
    {
        let r = IncidenceList {
            vertices: Arena::new(),
            edges: Arena::with_capacity(size),
            marker: PhantomData,
        };
        proof {
            assert(r.vprops() =~= Map::<usize, VP>::empty());
            assert(r.eprops() =~= Map::<usize, EP>::empty());
            assert(r.links() =~= Map::<usize, (usize, usize)>::empty());
        }
        r
    }
}

impl<D: Directivity, VP, EP> Graph for IncidenceList<D, VP, EP> {
    type VertexProperty = VP;

    type EdgeProperty = EP;

    /// Both arenas are well-formed and every edge's endpoints are live.
    closed spec fn wf(&self) -> bool {
        &&& self.vertices.wf()
        &&& self.edges.wf()
        &&& forall|e: usize|
            #[trigger] self.edges@.contains_key(e) ==> self.vertices@.contains_key(
                self.edges@[e].source,
            ) && self.vertices@.contains_key(self.edges@[e].target)
    }

    closed spec fn directed(&self) -> bool {
        D::directed_spec()
    }

    closed spec fn vprops(&self) -> Map<usize, VP> {
        Map::new(
            |v: usize| self.vertices@.contains_key(v),
            |v: usize| self.vertices@[v].property,
        )
    }

    closed spec fn eprops(&self) -> Map<usize, EP> {
        Map::new(|e: usize| self.edges@.contains_key(e), |e: usize| self.edges@[e].property)
    }

    closed spec fn links(&self) -> Map<usize, (usize, usize)> {
        Map::new(
            |e: usize| self.edges@.contains_key(e),
            |e: usize| (self.edges@[e].source, self.edges@[e].target),
        )
    }

    fn vertex_property(&self, d: VertexDescriptor) -> (r: Option<&VP>) {
        match self.vertices.get(d.index()) {
            Some(v) => Some(&v.property),
            None => None,
        }
    }

    fn edge_property(&self, d: EdgeDescriptor) -> (r: Option<&EP>) {
        match self.edges.get(d.index()) {
            Some(e) => Some(&e.property),
            None => None,
        }
    }
}

/// Insert `x` into a strictly ascending vector, keeping it strictly
/// ascending; inserting a present value changes nothing.
fn insert_sorted(ids: &mut Vec<usize>, x: usize)
    requires
        sorted_strict(old(ids)@),
    ensures
        sorted_strict(final(ids)@),
        forall|w: usize|
            #[trigger] final(ids)@.contains(w) <==> (old(ids)@.contains(w) || w == x),
{
    let n = ids.len();
    let mut lo: usize = 0;
    while lo < n && ids[lo] < x
        invariant
            lo <= n,
            n == ids@.len(),
            sorted_strict(ids@),
            ids@ == old(ids)@,
            forall|a: int| 0 <= a < lo ==> #[trigger] ids@[a] < x,
        decreases n - lo,
    {
        lo = lo + 1;
    }
    if lo < n && ids[lo] == x {
        proof {
            assert(ids@.contains(x));
        }
        return ;
    }
    let ghost ids0 = ids@;
    ids.insert(lo, x);
    proof {
        let pos = lo as int;
        assert(ids@ == ids0.insert(pos, x));
        assert(lo < n ==> ids0[pos] > x);
        assert forall|b: int| pos <= b < ids0.len() implies #[trigger] ids0[b] > x by {
            assert(ids0[pos] > x);
            if b > pos {
                assert(ids0[pos] < ids0[b]);
            }
        }
        assert forall|a: int, b: int|
            #![trigger ids@[a], ids@[b]]
            0 <= a < b < ids@.len() implies ids@[a] < ids@[b] by {
            assert(forall|c: int| 0 <= c < pos ==> ids@[c] == ids0[c]);
            assert(ids@[pos] == x);
            assert(forall|c: int| pos < c < ids@.len() ==> ids@[c] == ids0[c - 1]);
        }
        assert forall|w: usize| #[trigger] ids@.contains(w) implies (ids0.contains(w) || w
            == x) by {
            let idx = choose|idx: int| 0 <= idx < ids@.len() && ids@[idx] == w;
            if idx < lo {
                assert(ids0[idx] == w);
            } else if idx > lo {
                assert(ids0[idx - 1] == w);
            }
        }
        assert forall|w: usize| (ids0.contains(w) || w == x) implies ids@.contains(w) by {
            if ids0.contains(w) {
                let idx = choose|idx: int| 0 <= idx < ids0.len() && ids0[idx] == w;
                if idx < lo {
                    assert(ids@[idx] == w);
                } else {
                    assert(ids@[idx + 1] == w);
                }
            } else {
                assert(ids@[lo as int] == w);
            }
        }
        assert(forall|w: usize|
            #[trigger] ids@.contains(w) <==> (old(ids)@.contains(w) || w == x));
    }
}

/// The neighbour an edge contributes on one side of vertex `v`: the target
/// of an edge leaving `v` (a successor) or the source of an edge entering
/// it (a predecessor).
fn incident_neighbor(ends: (usize, usize), v: usize, kind: &VertexKind) -> (r: Option<usize>)
    ensures
        (match kind {
            VertexKind::Successor => r == (if ends.0 == v {
                Some(ends.1)
            } else {
                None::<usize>
            }),
            VertexKind::Predecessor => r == (if ends.1 == v {
                Some(ends.0)
            } else {
                None::<usize>
            }),
        }),
{
    match kind {
        VertexKind::Successor => if ends.0 == v {
            Some(ends.1)
        } else {
            None
        },
        VertexKind::Predecessor => if ends.1 == v {
            Some(ends.0)
        } else {
            None
        },
    }
}

impl<D: Directivity, VP, EP> IncidenceList<D, VP, EP> {
    /// Collect the edges incident to vertex slot `v` on the given side,
    /// ascending by edge slot index.
    fn collect_incident(&self, v: usize, kind: EdgeKind) -> (r: Vec<EdgeDescriptor>)
        requires
            self.wf(),
        ensures
            sorted_strict(edge_ids(r@)),
            forall|e: usize|
                #[trigger] edge_ids(r@).contains(e) <==> (self.links().contains_key(e) && (match kind {
                    EdgeKind::Outgoing => self.links()[e].0,
                    EdgeKind::Incoming => self.links()[e].1,
                }) == v),
    {
        let bound = self.edges.slot_bound();
        let mut r: Vec<EdgeDescriptor> = Vec::new();
        let mut i: usize = 0;
        while i < bound
            invariant
                self.wf(),
                i <= bound,
                forall|k: usize| self.edges@.contains_key(k) ==> k < bound,
                sorted_strict(edge_ids(r@)),
                forall|a: int| 0 <= a < r@.len() ==> #[trigger] edge_ids(r@)[a] < i,
                forall|e: usize|
                    #[trigger] edge_ids(r@).contains(e) <==> (e < i && self.links().contains_key(e)
                        && (match kind {
                        EdgeKind::Outgoing => self.links()[e].0,
                        EdgeKind::Incoming => self.links()[e].1,
                    }) == v),
            decreases bound - i,
        {
            let hit = match self.edges.get(i) {
                Some(edge) => (match kind {
                    EdgeKind::Outgoing => edge.source,
                    EdgeKind::Incoming => edge.target,
                }) == v,
                None => false,
            };
            if hit {
                let d = EdgeDescriptor::from_usize(i);
                let ghost r0 = r@;
                r.push(d);
                proof {
                    lemma_edge_ids_push(r0, d);
                    assert(edge_ids(r@) =~= edge_ids(r0).push(i));
                }
            }
            i = i + 1;
        }
        r
    }
}

impl<D: Directivity, VP, EP> IncidenceGraph for IncidenceList<D, VP, EP> {
    fn out_degree(&self, d: VertexDescriptor) -> (r: usize) {
        let r = self.collect_incident(d.index(), EdgeKind::Outgoing);
        proof {
            lemma_sorted_strict_no_duplicates(edge_ids(r@));
            edge_ids(r@).unique_seq_to_set();
            assert(edge_ids(r@).to_set() =~= Set::new(
                |e: usize| self.links().contains_key(e) && self.links()[e].0 == d@,
            ));
        }
        r.len()
    }

    fn out_edges(&self, d: VertexDescriptor) -> (r: Vec<EdgeDescriptor>) {
        self.collect_incident(d.index(), EdgeKind::Outgoing)
    }

    fn source(&self, d: EdgeDescriptor) -> (r: VertexDescriptor) {
        let edge = self.edges.get(d.index()).unwrap();
        VertexDescriptor::from_usize(edge.source)
    }

    fn target(&self, d: EdgeDescriptor) -> (r: VertexDescriptor) {
        let edge = self.edges.get(d.index()).unwrap();
        VertexDescriptor::from_usize(edge.target)
    }
}

impl<D: Directivity, VP, EP> BidirectionalGraph for IncidenceList<D, VP, EP> {
    fn degree(&self, d: VertexDescriptor) -> (r: usize) {
        proof {
            let outs = Set::new(
                |e: usize| self.links().contains_key(e) && self.links()[e].0 == d@,
            );
            let ins = Set::new(|e: usize| self.links().contains_key(e) && self.links()[e].1 == d@);
            assert(self.links().dom() =~= self.edges@.dom());
            self.edges.lemma_dom_finite();
            assert(outs.subset_of(self.links().dom()));
            assert(ins.subset_of(self.links().dom()));
            vstd::set_lib::lemma_len_subset(outs, self.links().dom());
            vstd::set_lib::lemma_len_subset(ins, self.links().dom());
        }
        let o = self.out_degree(d);
        let i = self.in_degree(d);
        o + i
    }

    fn in_degree(&self, d: VertexDescriptor) -> (r: usize) {
        let r = self.collect_incident(d.index(), EdgeKind::Incoming);
        proof {
            lemma_sorted_strict_no_duplicates(edge_ids(r@));
            edge_ids(r@).unique_seq_to_set();
            assert(edge_ids(r@).to_set() =~= Set::new(
                |e: usize| self.links().contains_key(e) && self.links()[e].1 == d@,
            ));
        }
        r.len()
    }

    fn in_edges(&self, d: VertexDescriptor) -> (r: Vec<EdgeDescriptor>) {
        self.collect_incident(d.index(), EdgeKind::Incoming)
    }
}

impl<D: Directivity, VP, EP> AdjacencyGraph for IncidenceList<D, VP, EP> {
    fn adjacent_vertices(&self, d: VertexDescriptor) -> (r: Vec<VertexDescriptor>) {
        let v = d.index();
        let directed = D::is_directed();
        let bound = self.edges.slot_bound();
        let mut ids: Vec<usize> = Vec::new();
        let mut i: usize = 0;
        while i < bound
            invariant
                self.wf(),
                i <= bound,
                directed == self.directed(),
                v == d@,
                forall|k: usize| self.edges@.contains_key(k) ==> k < bound,
                sorted_strict(ids@),
                forall|w: usize|
                    #[trigger] ids@.contains(w) <==> (exists|e: usize|
                        e < i && connects(self.links(), self.directed(), e, v, w)),
            decreases bound - i,
        {
            let step = match self.edges.get(i) {
                Some(edge) => Some((edge.source, edge.target)),
                None => None,
            };
            match step {
                Some((s, t)) => {
                    let ghost ids_enter = ids@;
                    match incident_neighbor((s, t), v, &VertexKind::Successor) {
                        Some(succ) => {
                            insert_sorted(&mut ids, succ);
                            proof {
                                assert(connects(self.links(), self.directed(), i, v, t));
                            }
                        },
                        None => {},
                    }
                    let ghost ids_mid = ids@;
                    if !directed {
                        match incident_neighbor((s, t), v, &VertexKind::Predecessor) {
                            Some(pred) => {
                                insert_sorted(&mut ids, pred);
                                proof {
                                    assert(connects(self.links(), self.directed(), i, v, s));
                                }
                            },
                            None => {},
                        }
                    }
                    proof {
                        assert forall|w: usize| #[trigger] ids@.contains(w) implies (exists|
                            e: usize,
                        |
                            e < i + 1 && connects(self.links(), self.directed(), e, v, w)) by {
                            if ids_enter.contains(w) {
                                let e = choose|e: usize|
                                    e < i && connects(self.links(), self.directed(), e, v, w);
                                assert(e < i + 1 && connects(
                                    self.links(),
                                    self.directed(),
                                    e,
                                    v,
                                    w,
                                ));
                            } else {
                                assert(connects(self.links(), self.directed(), i, v, w));
                                assert(i < i + 1);
                            }
                        }
                        assert forall|w: usize|
                            (exists|e: usize|
                                e < i + 1 && connects(
                                    self.links(),
                                    self.directed(),
                                    e,
                                    v,
                                    w,
                                )) implies #[trigger] ids@.contains(w) by {
                            let e = choose|e: usize|
                                e < i + 1 && connects(self.links(), self.directed(), e, v, w);
                            if e < i {
                                assert(ids_enter.contains(w));
                                assert(ids_mid.contains(w));
                            } else {
                                assert(e == i);
                                assert(self.links()[i] == (s, t));
                                if self.links()[i] == (v, w) {
                                    assert(s == v && w == t);
                                    assert(ids_mid.contains(w));
                                } else {
                                    assert(!self.directed() && self.links()[i] == (w, v));
                                    assert(t == v && w == s);
                                }
                            }
                        }
                    }
                },
                None => {
                    proof {
                        assert forall|w: usize| #[trigger] ids@.contains(w) implies (exists|
                            e: usize,
                        |
                            e < i + 1 && connects(self.links(), self.directed(), e, v, w)) by {
                            let e = choose|e: usize|
                                e < i && connects(self.links(), self.directed(), e, v, w);
                            assert(e < i + 1 && connects(self.links(), self.directed(), e, v, w));
                        }
                        assert forall|w: usize|
                            (exists|e: usize|
                                e < i + 1 && connects(
                                    self.links(),
                                    self.directed(),
                                    e,
                                    v,
                                    w,
                                )) implies #[trigger] ids@.contains(w) by {
                            let e = choose|e: usize|
                                e < i + 1 && connects(self.links(), self.directed(), e, v, w);
                            assert(e < i);
                        }
                    }
                },
            }
            i = i + 1;
        }
        let r = crate::graph::to_vertex_descriptors(&ids);
        proof {
            assert forall|w: usize| #[trigger] vertex_ids(r@).contains(w) implies adjacent(
                self.links(),
                self.directed(),
                d@,
                w,
            ) by {
                let e = choose|e: usize|
                    e < bound && connects(self.links(), self.directed(), e, v, w);
                assert(connects(self.links(), self.directed(), e, d@, w));
            }
            assert forall|w: usize|
                adjacent(self.links(), self.directed(), d@, w) implies #[trigger] vertex_ids(
                r@,
            ).contains(w) by {
                let e = choose|e: usize| connects(self.links(), self.directed(), e, d@, w);
                assert(self.links().contains_key(e));
                assert(self.edges@.contains_key(e));
                assert(e < bound);
                assert(ids@.contains(w));
            }
            assert forall|w: usize| vertex_ids(r@).contains(w) implies self.vprops().contains_key(
                w,
            ) by {
                let e = choose|e: usize| connects(self.links(), self.directed(), e, v, w);
                assert(self.edges@.contains_key(e));
            }
        }
        r
    }
}

impl<D: Directivity, VP, EP> VertexListGraph for IncidenceList<D, VP, EP> {
    fn order(&self) -> (r: usize) {
        proof {
            assert(self.vprops().dom() =~= self.vertices@.dom());
        }
        self.vertices.len()
    }

    fn vertices(&self) -> (r: Vec<VertexDescriptor>) {
        let ks = self.vertices.keys();
        let r = crate::graph::to_vertex_descriptors(&ks);
        r
    }
}

impl<D: Directivity, VP, EP> EdgeListGraph for IncidenceList<D, VP, EP> {
    fn size(&self) -> (r: usize) {
        proof {
            assert(self.links().dom() =~= self.edges@.dom());
        }
        self.edges.len()
    }

    fn edges(&self) -> (r: Vec<EdgeDescriptor>) {
        let ks = self.edges.keys();
        let r = crate::graph::to_edge_descriptors(&ks);
        proof {
            assert forall|e: usize| #[trigger] edge_ids(r@).contains(e) implies
                self.links().contains_key(e) by {
                assert(ks@.contains(e));
            }
            assert forall|e: usize| self.links().contains_key(e) implies #[trigger] edge_ids(
                r@,
            ).contains(e) by {
                assert(self.edges@.contains_key(e));
                assert(ks@.contains(e));
            }
        }
        r
    }
}

impl<D: Directivity, VP, EP> AdjacencyMatrixGraph for IncidenceList<D, VP, EP> {
    fn edge(&self, source: VertexDescriptor, target: VertexDescriptor) -> (r: Option<
        EdgeDescriptor,
    >) {
        let s = source.index();
        let t = target.index();
        let directed = D::is_directed();
        let bound = self.edges.slot_bound();
        let mut i: usize = 0;
        while i < bound
            invariant
                self.wf(),
                i <= bound,
                directed == self.directed(),
                s == source@,
                t == target@,
                forall|k: usize| self.edges@.contains_key(k) ==> k < bound,
                forall|e: usize|
                    e < i ==> !connects(self.links(), self.directed(), e, source@, target@),
            decreases bound - i,
        {
            let hit = match self.edges.get(i) {
                Some(edge) => (edge.source == s && edge.target == t) || (!directed && edge.source
                    == t && edge.target == s),
                None => false,
            };
            if hit {
                let d = EdgeDescriptor::from_usize(i);
                proof {
                    assert(connects(self.links(), self.directed(), i, source@, target@));
                }
                return Some(d);
            }
            proof {
                assert(!connects(self.links(), self.directed(), i, source@, target@));
                assert forall|e: usize|
                    e < i + 1 implies !connects(
                    self.links(),
                    self.directed(),
                    e,
                    source@,
                    target@,
                ) by {}
            }
            i = i + 1;
        }
        proof {
            assert forall|e: usize|
                !connects(self.links(), self.directed(), e, source@, target@) by {
                if connects(self.links(), self.directed(), e, source@, target@) {
                    assert(self.links().contains_key(e));
                    assert(self.edges@.contains_key(e));
                }
            }
        }
        None
    }
}

impl<D: Directivity, VP, EP> MutableGraph for IncidenceList<D, VP, EP> {
    fn add_vertex(&mut self, property: VP) -> (r: VertexDescriptor) {
        proof {
            assert(old(self).vprops().dom() =~= old(self).vertices@.dom());
        }
        let k = self.vertices.insert(Vertex { property });
        proof {
            assert(self.vprops() =~= old(self).vprops().insert(k, property));
            assert(self.eprops() =~= old(self).eprops());
            assert(self.links() =~= old(self).links());
        }
        VertexDescriptor::from_usize(k)
    }

    fn add_edge(&mut self, source: VertexDescriptor, target: VertexDescriptor, property: EP) -> (r:
        Option<EdgeDescriptor>) {
        let s = source.index();
        let t = target.index();
        if self.vertices.contains(s) && self.vertices.contains(t) {
            proof {
                assert(old(self).links().dom() =~= old(self).edges@.dom());
            }
            let k = self.edges.insert(Edge { source: s, property, target: t });
            proof {
                assert(self.vprops() =~= old(self).vprops());
                assert(self.links() =~= old(self).links().insert(k, (source@, target@)));
                assert(self.eprops() =~= old(self).eprops().insert(k, property));
            }
            Some(EdgeDescriptor::from_usize(k))
        } else {
            None
        }
    }

    fn remove_vertex(&mut self, d: VertexDescriptor) -> (r: Option<VP>) {
        let v = d.index();
        if !self.vertices.contains(v) {
            return None;
        }
        let bound = self.edges.slot_bound();
        let mut i: usize = 0;
        while i < bound
            invariant
                self.vertices == old(self).vertices,
                self.vertices.wf(),
                self.edges.wf(),
                v == d@,
                old(self).wf(),
                forall|e: usize|
                    #[trigger] self.edges@.contains_key(e) ==> self.vertices@.contains_key(
                        self.edges@[e].source,
                    ) && self.vertices@.contains_key(self.edges@[e].target),
                forall|k: usize| old(self).edges@.contains_key(k) ==> k < bound,
                forall|e: usize|
                    #[trigger] self.edges@.contains_key(e) <==> (old(self).edges@.contains_key(e)
                        && !(e < i && (old(self).edges@[e].source == v || old(
                        self,
                    ).edges@[e].target == v))),
                forall|e: usize|
                    #[trigger] self.edges@.contains_key(e) ==> self.edges@[e] == old(
                        self,
                    ).edges@[e],
            decreases bound - i,
        {
            let hit = match self.edges.get(i) {
                Some(edge) => edge.source == v || edge.target == v,
                None => false,
            };
            if hit {
                let ghost pre = self.edges@;
                let removed = self.edges.remove(i);
                proof {
                    assert(removed is Some);
                    assert(self.edges@ =~= pre.remove(i));
                }
            }
            i = i + 1;
        }
        let vx = self.vertices.remove(v).unwrap();
        proof {
            assert(self.vprops() =~= old(self).vprops().remove(d@));
            assert forall|e: usize| #[trigger] self.edges@.contains_key(e) implies (old(
                self,
            ).edges@.contains_key(e) && old(self).edges@[e].source != v && old(
                self,
            ).edges@[e].target != v) by {
                assert(old(self).edges@.contains_key(e));
                assert(e < bound);
            }
            assert(self.links() =~= remove_incident(old(self).links(), d@));
            assert(self.eprops() =~= old(self).eprops().restrict(
                remove_incident(old(self).links(), d@).dom(),
            ));
        }
        Some(vx.property)
    }

    fn remove_edge(&mut self, d: EdgeDescriptor) -> (r: Option<EP>) {
        match self.edges.remove(d.index()) {
            Some(edge) => {
                proof {
                    assert(self.vprops() =~= old(self).vprops());
                    assert(self.links() =~= old(self).links().remove(d@));
                    assert(self.eprops() =~= old(self).eprops().remove(d@));
                }
                Some(edge.property)
            },
            None => {
                proof {
                    assert(self.vprops() =~= old(self).vprops());
                    assert(self.links() =~= old(self).links());
                    assert(self.eprops() =~= old(self).eprops());
                }
                None
            },
        }
    }

    fn vertex_property_mut(&mut self, d: VertexDescriptor, property: VP) -> (r: Option<VP>) {
        let v = d.index();
        if self.vertices.contains(v) {
            let vx = self.vertices.replace(v, Vertex { property });
            proof {
                assert(self.vprops() =~= old(self).vprops().insert(d@, property));
                assert(self.eprops() =~= old(self).eprops());
                assert(self.links() =~= old(self).links());
            }
            Some(vx.property)
        } else {
            None
        }
    }

    fn edge_property_mut(&mut self, d: EdgeDescriptor, property: EP) -> (r: Option<EP>) {
        let e = d.index();
        let ends = match self.edges.get(e) {
            Some(edge) => Some((edge.source, edge.target)),
            None => None,
        };
        match ends {
            Some((s, t)) => {
                let ex = self.edges.replace(e, Edge { source: s, property, target: t });
                proof {
                    assert(self.vprops() =~= old(self).vprops());
                    assert(self.eprops() =~= old(self).eprops().insert(d@, property));
                    assert(self.links() =~= old(self).links());
                }
                Some(ex.property)
            },
            None => None,
        }
    }
}

} // verus!
