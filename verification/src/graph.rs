//! Opaque vertex/edge descriptors, the directivity markers, the capability
//! traits that storage backends implement and algorithms require, and the
//! spec-level vocabulary (edge relation, adjacency, paths, reachability)
//! that all contracts in this crate are stated over.

use vstd::prelude::*;

verus! {

/// Conversion from an arena slot index to a descriptor.
pub trait FromUsize: Sized {
    fn from_usize(v: usize) -> Self;
}

/// An opaque, copyable identifier for a vertex, wrapping an arena slot index.
/// Equality and ordering are structural on that index.
#[derive(Clone, Copy, Debug, PartialEq, Eq, Hash, PartialOrd, Ord, Structural)]
pub struct VertexDescriptor(usize);

impl View for VertexDescriptor {
    type V = usize;

    closed spec fn view(&self) -> usize {
        self.0
    }
}

impl FromUsize for VertexDescriptor {
    fn from_usize(v: usize) -> (r: Self)
        ensures
            r@ == v,
    {
        VertexDescriptor(v)
    }
}

impl VertexDescriptor {
    /// The arena slot index this descriptor wraps.
    pub fn index(self) -> (r: usize)
        ensures
            r == self@,
    {
        self.0
    }
}

/// An opaque, copyable identifier for an edge, wrapping an arena slot index.
/// Equality and ordering are structural on that index.
#[derive(Clone, Copy, Debug, PartialEq, Eq, Hash, PartialOrd, Ord, Structural)]
pub struct EdgeDescriptor(usize);

impl View for EdgeDescriptor {
    type V = usize;

    closed spec fn view(&self) -> usize {
        self.0
    }
}

impl FromUsize for EdgeDescriptor {
    fn from_usize(v: usize) -> (r: Self)
        ensures
            r@ == v,
    {
        EdgeDescriptor(v)
    }
}

impl EdgeDescriptor {
    /// The arena slot index this descriptor wraps.
    pub fn index(self) -> (r: usize)
        ensures
            r == self@,
    {
        self.0
    }
}

/// Two vertex descriptors are equal exactly when they wrap the same slot
/// index.
pub proof fn lemma_vertex_descriptor_injective(a: VertexDescriptor, b: VertexDescriptor)
    ensures
        a == b <==> a@ == b@,
{
}

/// Compile-time directivity tag attached to a storage type.
pub trait Directivity {
    spec fn directed_spec() -> bool;

    fn is_directed() -> (r: bool)
        ensures
            r == Self::directed_spec(),
    ;
}

/// Marker for storage whose edges are one-way.
#[derive(Clone, Copy, Debug)]
pub struct Directed;

impl Directivity for Directed {
    open spec fn directed_spec() -> bool {
        true
    }

    fn is_directed() -> bool {
        true
    }
}

/// Marker for storage that treats `(s, t)` and `(t, s)` as the same edge
/// for lookup and adjacency purposes.
#[derive(Clone, Copy, Debug)]
pub struct Undirected;

impl Directivity for Undirected {
    open spec fn directed_spec() -> bool {
        false
    }

    fn is_directed() -> bool {
        false
    }
}

/// The slot indices of a sequence of vertex descriptors.
pub open spec fn vertex_ids(s: Seq<VertexDescriptor>) -> Seq<usize> {
    s.map_values(|d: VertexDescriptor| d@)
}

/// The slot indices of a sequence of edge descriptors.
pub open spec fn edge_ids(s: Seq<EdgeDescriptor>) -> Seq<usize> {
    s.map_values(|d: EdgeDescriptor| d@)
}

/// Strictly ascending: sorted with no duplicates.
pub open spec fn sorted_strict(s: Seq<usize>) -> bool {
    forall|i: int, j: int| #![trigger s[i], s[j]] 0 <= i < j < s.len() ==> s[i] < s[j]
}

/// Pushing a descriptor onto a sequence extends its id sequence accordingly.
pub proof fn lemma_edge_ids_push(s: Seq<EdgeDescriptor>, d: EdgeDescriptor)
    ensures
        edge_ids(s.push(d)) =~= edge_ids(s).push(d@),
        forall|e: usize|
            #[trigger] edge_ids(s.push(d)).contains(e) <==> (edge_ids(s).contains(e) || e == d@),
{
    let s1 = s.push(d);
    assert forall|e: usize| #[trigger] edge_ids(s1).contains(e) implies (edge_ids(s).contains(e)
        || e == d@) by {
        let idx = choose|idx: int| 0 <= idx < edge_ids(s1).len() && edge_ids(s1)[idx] == e;
        if idx < s.len() {
            assert(edge_ids(s)[idx] == e);
        }
    }
    assert forall|e: usize| (edge_ids(s).contains(e) || e == d@) implies edge_ids(s1).contains(
        e,
    ) by {
        if edge_ids(s).contains(e) {
            let idx = choose|idx: int| 0 <= idx < edge_ids(s).len() && edge_ids(s)[idx] == e;
            assert(edge_ids(s1)[idx] == e);
        } else {
            assert(edge_ids(s1)[s1.len() - 1] == e);
        }
    }
}

/// Wrap a sequence of slot indices in vertex descriptors, preserving order.
pub(crate) fn to_vertex_descriptors(ids: &Vec<usize>) -> (r: Vec<VertexDescriptor>)
    ensures
        vertex_ids(r@) == ids@,
{
    let mut r: Vec<VertexDescriptor> = Vec::new();
    let mut j: usize = 0;
    while j < ids.len()
        invariant
            j <= ids@.len(),
            r@.len() == j,
            forall|a: int| 0 <= a < j ==> (#[trigger] r@[a])@ == ids@[a],
        decreases ids@.len() - j,
    {
        r.push(VertexDescriptor::from_usize(ids[j]));
        j = j + 1;
    }
    proof {
        assert(vertex_ids(r@) =~= ids@);
    }
    r
}

/// Wrap a sequence of slot indices in edge descriptors, preserving order.
pub(crate) fn to_edge_descriptors(ids: &Vec<usize>) -> (r: Vec<EdgeDescriptor>)
    ensures
        edge_ids(r@) == ids@,
{
    let mut r: Vec<EdgeDescriptor> = Vec::new();
    let mut j: usize = 0;
    while j < ids.len()
        invariant
            j <= ids@.len(),
            r@.len() == j,
            forall|a: int| 0 <= a < j ==> (#[trigger] r@[a])@ == ids@[a],
        decreases ids@.len() - j,
    {
        r.push(EdgeDescriptor::from_usize(ids[j]));
        j = j + 1;
    }
    proof {
        assert(edge_ids(r@) =~= ids@);
    }
    r
}

/// A strictly ascending sequence has no duplicates.
pub proof fn lemma_sorted_strict_no_duplicates(s: Seq<usize>)
    requires
        sorted_strict(s),
    ensures
        s.no_duplicates(),
{
    assert forall|i: int, j: int| 0 <= i < s.len() && 0 <= j < s.len() && i != j implies s[i]
        != s[j] by {
        if i < j {
            assert(s[i] < s[j]);
        } else {
            assert(s[j] < s[i]);
        }
    }
}

/// Edge `e` of the edge relation `links` joins `s` to `t`: in directed graphs
/// only in the stored orientation, in undirected graphs in either one.
pub open spec fn connects(
    links: Map<usize, (usize, usize)>,
    directed: bool,
    e: usize,
    s: usize,
    t: usize,
) -> bool {
    links.contains_key(e) && (links[e] == (s, t) || (!directed && links[e] == (t, s)))
}

/// Some edge joins `s` to `t`.
pub open spec fn adjacent(
    links: Map<usize, (usize, usize)>,
    directed: bool,
    s: usize,
    t: usize,
) -> bool {
    exists|e: usize| connects(links, directed, e, s, t)
}

/// `p` is a walk: non-empty, with every pair of consecutive vertices joined
/// by an edge in the correct direction.
pub open spec fn is_path(links: Map<usize, (usize, usize)>, directed: bool, p: Seq<usize>) -> bool {
    &&& p.len() >= 1
    &&& forall|i: int| 0 <= i < p.len() - 1 ==> adjacent(links, directed, #[trigger] p[i], p[i + 1])
}

/// Some walk leads from `s` to `t` (in zero or more steps).
pub open spec fn reachable(
    links: Map<usize, (usize, usize)>,
    directed: bool,
    s: usize,
    t: usize,
) -> bool {
    exists|p: Seq<usize>|
        is_path(links, directed, p) && p.first() == s && p.last() == t
}

/// The edge relation `links` restricted to the edges not incident to `v`:
/// what remains after removing a vertex.
pub open spec fn remove_incident(
    links: Map<usize, (usize, usize)>,
    v: usize,
) -> Map<usize, (usize, usize)> {
    Map::new(
        |e: usize| links.contains_key(e) && links[e].0 != v && links[e].1 != v,
        |e: usize| links[e],
    )
}

/// What an adjacency enumeration promises: the sequence lists exactly the
/// vertices adjacent to `vertex`, and all of them are live.
pub open spec fn adjacency_enumeration_ok<G: Graph>(
    graph: &G,
    vertex: VertexDescriptor,
    adj: Seq<VertexDescriptor>,
) -> bool {
    &&& forall|w: usize|
        #[trigger] vertex_ids(adj).contains(w) <==> adjacent(
            graph.links(),
            graph.directed(),
            vertex@,
            w,
        )
    &&& forall|w: usize| vertex_ids(adj).contains(w) ==> graph.vprops().contains_key(w)
}

/// Read-only property lookup: the root capability. The spec-level model of
/// any graph is its vertex property map, edge property map, and edge
/// relation (edge id to source/target pair), plus its directivity.
pub trait Graph {
    type VertexProperty;

    type EdgeProperty;

    /// The internal well-formedness invariant of the storage.
    spec fn wf(&self) -> bool;

    /// Whether edges are one-way.
    spec fn directed(&self) -> bool;

    /// The property attached to each live vertex, keyed by slot index.
    spec fn vprops(&self) -> Map<usize, Self::VertexProperty>;

    /// The property attached to each live edge, keyed by slot index.
    spec fn eprops(&self) -> Map<usize, Self::EdgeProperty>;

    /// The source and target of each live edge, keyed by slot index.
    spec fn links(&self) -> Map<usize, (usize, usize)>;

    fn vertex_property(&self, d: VertexDescriptor) -> (r: Option<&Self::VertexProperty>)
        requires
            self.wf(),
        ensures
            (match r {
                Some(p) => self.vprops().contains_key(d@) && *p == self.vprops()[d@],
                None => !self.vprops().contains_key(d@),
            }),
    ;

    fn edge_property(&self, d: EdgeDescriptor) -> (r: Option<&Self::EdgeProperty>)
        requires
            self.wf(),
        ensures
            (match r {
                Some(p) => self.eprops().contains_key(d@) && *p == self.eprops()[d@],
                None => !self.eprops().contains_key(d@),
            }),
    ;
}

/// Enumeration of the edges leaving a vertex.
pub trait IncidenceGraph: Graph {
    fn out_degree(&self, d: VertexDescriptor) -> (r: usize)
        requires
            self.wf(),
            self.vprops().contains_key(d@),
        ensures
            r == Set::new(|e: usize| self.links().contains_key(e) && self.links()[e].0 == d@).len(),
    ;

    fn out_edges(&self, d: VertexDescriptor) -> (r: Vec<EdgeDescriptor>)
        requires
            self.wf(),
            self.vprops().contains_key(d@),
        ensures
            sorted_strict(edge_ids(r@)),
            forall|e: usize|
                #[trigger] edge_ids(r@).contains(e) <==> (self.links().contains_key(e)
                    && self.links()[e].0 == d@),
    ;

    fn source(&self, d: EdgeDescriptor) -> (r: VertexDescriptor)
        requires
            self.wf(),
            self.links().contains_key(d@),
        ensures
            r@ == self.links()[d@].0,
    ;

    fn target(&self, d: EdgeDescriptor) -> (r: VertexDescriptor)
        requires
            self.wf(),
            self.links().contains_key(d@),
        ensures
            r@ == self.links()[d@].1,
    ;
}

/// Enumeration of the edges entering a vertex, in addition to those leaving.
pub trait BidirectionalGraph: IncidenceGraph {
    fn degree(&self, d: VertexDescriptor) -> (r: usize)
        requires
            self.wf(),
            self.vprops().contains_key(d@),
            self.links().dom().len() * 2 <= usize::MAX,
        ensures
            r == Set::new(|e: usize| self.links().contains_key(e) && self.links()[e].0 == d@).len()
                + Set::new(
                |e: usize| self.links().contains_key(e) && self.links()[e].1 == d@,
            ).len(),
    ;

    fn in_degree(&self, d: VertexDescriptor) -> (r: usize)
        requires
            self.wf(),
            self.vprops().contains_key(d@),
        ensures
            r == Set::new(|e: usize| self.links().contains_key(e) && self.links()[e].1 == d@).len(),
    ;

    fn in_edges(&self, d: VertexDescriptor) -> (r: Vec<EdgeDescriptor>)
        requires
            self.wf(),
            self.vprops().contains_key(d@),
        ensures
            sorted_strict(edge_ids(r@)),
            forall|e: usize|
                #[trigger] edge_ids(r@).contains(e) <==> (self.links().contains_key(e)
                    && self.links()[e].1 == d@),
    ;
}

/// Enumeration of the vertices adjacent to a vertex, as a sorted,
/// duplicate-free sequence.
pub trait AdjacencyGraph: Graph {
    fn adjacent_vertices(&self, d: VertexDescriptor) -> (r: Vec<VertexDescriptor>)
        requires
            self.wf(),
            self.vprops().contains_key(d@),
        ensures
            sorted_strict(vertex_ids(r@)),
            forall|w: usize|
                #[trigger] vertex_ids(r@).contains(w) <==> adjacent(
                    self.links(),
                    self.directed(),
                    d@,
                    w,
                ),
            forall|w: usize|
                vertex_ids(r@).contains(w) ==> self.vprops().contains_key(w),
    ;
}

/// Enumeration of all live vertices, with their count.
pub trait VertexListGraph: Graph {
    fn order(&self) -> (r: usize)
        requires
            self.wf(),
        ensures
            r == self.vprops().dom().len(),
    ;

    fn vertices(&self) -> (r: Vec<VertexDescriptor>)
        requires
            self.wf(),
        ensures
            sorted_strict(vertex_ids(r@)),
            forall|v: usize|
                #[trigger] vertex_ids(r@).contains(v) <==> self.vprops().contains_key(v),
    ;
}

/// Enumeration of all live edges, with their count.
pub trait EdgeListGraph: Graph {
    fn size(&self) -> (r: usize)
        requires
            self.wf(),
        ensures
            r == self.links().dom().len(),
    ;

    fn edges(&self) -> (r: Vec<EdgeDescriptor>)
        requires
            self.wf(),
        ensures
            sorted_strict(edge_ids(r@)),
            forall|e: usize|
                #[trigger] edge_ids(r@).contains(e) <==> self.links().contains_key(e),
    ;
}

/// Adjacency-matrix-style lookup: the edge joining two named vertices,
/// absent if there is none.
pub trait AdjacencyMatrixGraph: Graph {
    fn edge(&self, source: VertexDescriptor, target: VertexDescriptor) -> (r: Option<
        EdgeDescriptor,
    >)
        requires
            self.wf(),
        ensures
            (match r {
                Some(e) => connects(self.links(), self.directed(), e@, source@, target@) && forall|
                    e2: usize,
                |
                    #[trigger] connects(self.links(), self.directed(), e2, source@, target@)
                        ==> e@ <= e2,
                None => !adjacent(self.links(), self.directed(), source@, target@),
            }),
    ;
}

/// Insertion and removal of vertices and edges, and property replacement.
pub trait MutableGraph: Graph {
    fn add_vertex(&mut self, property: Self::VertexProperty) -> (r: VertexDescriptor)
        requires
            old(self).wf(),
            old(self).vprops().dom().len() < usize::MAX,
        ensures
            final(self).wf(),
            !old(self).vprops().contains_key(r@),
            final(self).vprops() == old(self).vprops().insert(r@, property),
            final(self).eprops() == old(self).eprops(),
            final(self).links() == old(self).links(),
            final(self).directed() == old(self).directed(),
    ;

    fn add_edge(
        &mut self,
        source: VertexDescriptor,
        target: VertexDescriptor,
        property: Self::EdgeProperty,
    ) -> (r: Option<EdgeDescriptor>)
        requires
            old(self).wf(),
            old(self).links().dom().len() < usize::MAX,
        ensures
            final(self).wf(),
            final(self).directed() == old(self).directed(),
            final(self).vprops() == old(self).vprops(),
            (match r {
                Some(e) => {
                    &&& old(self).vprops().contains_key(source@)
                    &&& old(self).vprops().contains_key(target@)
                    &&& !old(self).links().contains_key(e@)
                    &&& final(self).links() == old(self).links().insert(e@, (source@, target@))
                    &&& final(self).eprops() == old(self).eprops().insert(e@, property)
                },
                None => {
                    &&& !(old(self).vprops().contains_key(source@) && old(
                        self,
                    ).vprops().contains_key(target@))
                    &&& final(self).links() == old(self).links()
                    &&& final(self).eprops() == old(self).eprops()
                },
            }),
    ;

    fn remove_vertex(&mut self, d: VertexDescriptor) -> (r: Option<Self::VertexProperty>)
        requires
            old(self).wf(),
        ensures
            final(self).wf(),
            final(self).directed() == old(self).directed(),
            (match r {
                Some(p) => {
                    &&& old(self).vprops().contains_key(d@)
                    &&& p == old(self).vprops()[d@]
                    &&& final(self).vprops() == old(self).vprops().remove(d@)
                    &&& final(self).links() == remove_incident(old(self).links(), d@)
                    &&& final(self).eprops() == old(self).eprops().restrict(
                        remove_incident(old(self).links(), d@).dom(),
                    )
                },
                None => {
                    &&& !old(self).vprops().contains_key(d@)
                    &&& final(self).vprops() == old(self).vprops()
                    &&& final(self).links() == old(self).links()
                    &&& final(self).eprops() == old(self).eprops()
                },
            }),
    ;

    fn remove_edge(&mut self, d: EdgeDescriptor) -> (r: Option<Self::EdgeProperty>)
        requires
            old(self).wf(),
        ensures
            final(self).wf(),
            final(self).directed() == old(self).directed(),
            final(self).vprops() == old(self).vprops(),
            (match r {
                Some(p) => {
                    &&& old(self).eprops().contains_key(d@)
                    &&& p == old(self).eprops()[d@]
                    &&& final(self).links() == old(self).links().remove(d@)
                    &&& final(self).eprops() == old(self).eprops().remove(d@)
                },
                None => {
                    &&& !old(self).eprops().contains_key(d@)
                    &&& final(self).links() == old(self).links()
                    &&& final(self).eprops() == old(self).eprops()
                },
            }),
    ;

    fn vertex_property_mut(&mut self, d: VertexDescriptor, property: Self::VertexProperty) -> (r:
        Option<Self::VertexProperty>)
        requires
            old(self).wf(),
        ensures
            final(self).wf(),
            final(self).directed() == old(self).directed(),
            final(self).eprops() == old(self).eprops(),
            final(self).links() == old(self).links(),
            (match r {
                Some(p) => {
                    &&& old(self).vprops().contains_key(d@)
                    &&& p == old(self).vprops()[d@]
                    &&& final(self).vprops() == old(self).vprops().insert(d@, property)
                },
                None => {
                    &&& !old(self).vprops().contains_key(d@)
                    &&& final(self).vprops() == old(self).vprops()
                },
            }),
    ;

    fn edge_property_mut(&mut self, d: EdgeDescriptor, property: Self::EdgeProperty) -> (r: Option<
        Self::EdgeProperty,
    >)
        requires
            old(self).wf(),
        ensures
            final(self).wf(),
            final(self).directed() == old(self).directed(),
            final(self).vprops() == old(self).vprops(),
            (match r {
                Some(p) => {
                    &&& old(self).eprops().contains_key(d@)
                    &&& p == old(self).eprops()[d@]
                    &&& final(self).eprops() == old(self).eprops().insert(d@, property)
                    &&& final(self).links() == old(self).links()
                },
                None => {
                    &&& !old(self).eprops().contains_key(d@)
                    &&& final(self).eprops() == old(self).eprops()
                    &&& final(self).links() == old(self).links()
                },
            }),
    ;
}

/// Some walk of exactly `n` edges leads from `s` to `t`.
pub open spec fn has_path_len(
    links: Map<usize, (usize, usize)>,
    directed: bool,
    s: usize,
    t: usize,
    n: nat,
) -> bool {
    exists|p: Seq<usize>|
        is_path(links, directed, p) && p.first() == s && p.last() == t && p.len() == n + 1
}

/// A walk extends by one step to any vertex adjacent to its end.
pub proof fn lemma_path_extend(
    links: Map<usize, (usize, usize)>,
    directed: bool,
    p: Seq<usize>,
    w: usize,
)
    requires
        is_path(links, directed, p),
        adjacent(links, directed, p.last(), w),
    ensures
        is_path(links, directed, p.push(w)),
        p.push(w).first() == p.first(),
        p.push(w).last() == w,
{
    let q = p.push(w);
    assert forall|i: int| 0 <= i < q.len() - 1 implies adjacent(
        links,
        directed,
        #[trigger] q[i],
        q[i + 1],
    ) by {
        if i < p.len() - 1 {
            assert(q[i] == p[i] && q[i + 1] == p[i + 1]);
        } else {
            assert(q[i] == p.last() && q[i + 1] == w);
        }
    }
}

/// The model left after removing, front to back, every key that a sequence
/// names.
pub open spec fn remove_all<A>(m: Map<usize, A>, ks: Seq<usize>) -> Map<usize, A>
    decreases ks.len(),
{
    if ks.len() == 0 {
        m
    } else {
        remove_all(m.remove(ks.first()), ks.drop_first())
    }
}

/// Round-trip law, first half: inserting an entry under a fresh key and then
/// removing that key restores the model exactly. With the contracts of
/// `MutableGraph::add_vertex` and `MutableGraph::remove_vertex` (or
/// `add_edge` and `remove_edge`), inserting into a storage and removing what
/// was inserted restores its vertex (or edge) model.
pub proof fn lemma_insert_remove_round_trip<A>(m: Map<usize, A>, k: usize, v: A)
    requires
        !m.contains_key(k),
    ensures
        m.insert(k, v).remove(k) == m,
{
    assert(m.insert(k, v).remove(k) =~= m);
}

/// Round-trip law, second half: removing every key a model holds leaves the
/// empty model. With the contracts of the removal operations, removing all
/// vertices returns the storage to order zero, and removing all edges
/// returns it to size zero while leaving every vertex in place.
pub proof fn lemma_remove_all_clears<A>(m: Map<usize, A>, ks: Seq<usize>)
    requires
        m.dom().subset_of(ks.to_set()),
    ensures
        remove_all(m, ks) == Map::<usize, A>::empty(),
    decreases ks.len(),
{
    if ks.len() == 0 {
        assert(m.dom() =~= Set::empty());
        assert(m =~= Map::<usize, A>::empty());
    } else {
        let f = ks.first();
        let rest = ks.drop_first();
        assert forall|x: usize| #[trigger] m.remove(f).dom().contains(x) implies
            rest.to_set().contains(x) by {
            assert(ks.to_set().contains(x));
            let i = choose|i: int| 0 <= i < ks.len() && ks[i] == x;
            assert(i != 0);
            assert(rest[i - 1] == x);
            assert(rest.contains(x));
        }
        lemma_remove_all_clears(m.remove(f), rest);
    }
}

/// Removing an outgoing edge of a vertex lowers that vertex's out-degree by
/// exactly one, and every other edge leaving the vertex remains.
pub proof fn lemma_remove_edge_out_degree(links: Map<usize, (usize, usize)>, e: usize, v: usize)
    requires
        links.dom().finite(),
        links.contains_key(e),
        links[e].0 == v,
    ensures
        forall|x: usize|
            x != e && links.contains_key(x) ==> (#[trigger] links.remove(e).contains_key(x)
                && links.remove(e)[x] == links[x]),
        Set::new(|x: usize| links.remove(e).contains_key(x) && links.remove(e)[x].0 == v).len()
            == Set::new(|x: usize| links.contains_key(x) && links[x].0 == v).len() - 1,
{
    let outs = Set::new(|x: usize| links.contains_key(x) && links[x].0 == v);
    let outs_after = Set::new(
        |x: usize| links.remove(e).contains_key(x) && links.remove(e)[x].0 == v,
    );
    assert(outs =~= links.dom().intersect(Set::new(|x: usize| links[x].0 == v)));
    vstd::set::axiom_set_intersect_finite(links.dom(), Set::new(|x: usize| links[x].0 == v));
    assert(outs_after =~= outs.remove(e));
    vstd::set::axiom_set_remove_len(outs, e);
}

/// In an undirected edge relation, adjacency is symmetric.
pub proof fn lemma_adjacent_symmetric(links: Map<usize, (usize, usize)>, v: usize, w: usize)
    requires
        adjacent(links, false, v, w),
    ensures
        adjacent(links, false, w, v),
{
    let e = choose|e: usize| connects(links, false, e, v, w);
    assert(connects(links, false, e, w, v));
}

/// Every walk that starts inside a set closed under adjacency ends inside it.
proof fn lemma_path_in_closed_set(
    links: Map<usize, (usize, usize)>,
    directed: bool,
    p: Seq<usize>,
    close: Set<usize>,
)
    requires
        is_path(links, directed, p),
        close.contains(p.first()),
        forall|v: usize, w: usize|
            close.contains(v) && #[trigger] adjacent(links, directed, v, w) ==> close.contains(w),
    ensures
        close.contains(p.last()),
    decreases p.len(),
{
    if p.len() > 1 {
        let q = p.drop_last();
        assert(is_path(links, directed, q));
        lemma_path_in_closed_set(links, directed, q, close);
        assert(adjacent(links, directed, p[p.len() - 2], p[p.len() - 1]));
    }
}

/// Everything reachable from a vertex of a set closed under adjacency lies
/// inside that set.
pub proof fn lemma_reachable_in_closed_set(
    links: Map<usize, (usize, usize)>,
    directed: bool,
    s: usize,
    t: usize,
    close: Set<usize>,
)
    requires
        reachable(links, directed, s, t),
        close.contains(s),
        forall|v: usize, w: usize|
            close.contains(v) && #[trigger] adjacent(links, directed, v, w) ==> close.contains(w),
    ensures
        close.contains(t),
{
    let p = choose|p: Seq<usize>|
        is_path(links, directed, p) && p.first() == s && p.last() == t;
    lemma_path_in_closed_set(links, directed, p, close);
}

} // verus!
