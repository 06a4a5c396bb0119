//! Breadth-first search: a FIFO frontier of vertex identifiers, a parent map
//! recording how each vertex was first discovered, and one event per step to
//! the visitor. Returns the reconstructed start-to-goal route, or absent
//! when no reachable vertex satisfies the goal predicate.

use core::marker::PhantomData;
use std::collections::HashMap;
use std::collections::VecDeque;

use vstd::prelude::*;

use crate::graph::{
    adjacency_enumeration_ok, adjacent, has_path_len, is_path, lemma_path_extend,
    lemma_reachable_in_closed_set, lemma_vertex_descriptor_injective, reachable, vertex_ids,
    AdjacencyGraph, AdjacencyMatrixGraph, Graph, VertexDescriptor, VertexListGraph,
};
use crate::path::{
    discovered, is_parent_chain, lemma_acyclic_insert, lemma_linked_unreferenced,
    parent_map_acyclic, reverse_path,
};
use crate::visitor::{DefaultVisitor, Event, Visitor};

verus! {

broadcast use vstd::std_specs::hash::group_hash_axioms, vstd::set::axiom_set_insert_len,
    vstd::set::axiom_set_insert_finite, vstd::set::axiom_set_empty_finite,
    vstd::set::axiom_set_empty_len;

/// Any walk from the start to a vertex the search has not yet discovered
/// must leave the discovered region through a frontier vertex, so it is
/// strictly longer than the depth of the layer under examination. `dmap`
/// assigns each discovered vertex its depth; `dv` is the depth of the
/// vertex being examined.
proof fn lemma_undiscovered_far(
    links: Map<usize, (usize, usize)>,
    dir: bool,
    s: usize,
    dmap: Map<usize, nat>,
    examined: Set<usize>,
    dv: nat,
    p: Seq<usize>,
)
    requires
        is_path(links, dir, p),
        p.first() == s,
        dmap.contains_key(s),
        !dmap.contains_key(p.last()),
        forall|w: usize, n: nat|
            dmap.contains_key(w) && #[trigger] has_path_len(links, dir, s, w, n) ==> n >= dmap[w],
        forall|w: usize, u: usize|
            examined.contains(w) && #[trigger] adjacent(links, dir, w, u) ==> dmap.contains_key(u),
        forall|w: usize|
            #[trigger] dmap.contains_key(w) && !examined.contains(w) ==> dmap[w] >= dv,
    ensures
        p.len() >= dv + 2,
    decreases p.len(),
{
    if p.len() == 1 {
        assert(p.first() == p.last());
    } else {
        let q = p.drop_last();
        assert forall|i: int| 0 <= i < q.len() - 1 implies adjacent(
            links,
            dir,
            #[trigger] q[i],
            q[i + 1],
        ) by {
            assert(q[i] == p[i] && q[i + 1] == p[i + 1]);
            assert(adjacent(links, dir, p[i], p[i + 1]));
        }
        assert(is_path(links, dir, q));
        if !dmap.contains_key(q.last()) {
            lemma_undiscovered_far(links, dir, s, dmap, examined, dv, q);
        } else {
            let y = q.last();
            assert(adjacent(links, dir, p[p.len() - 2], p[p.len() - 1]));
            assert(adjacent(links, dir, y, p.last()));
            assert(!examined.contains(y));
            assert(is_path(links, dir, q) && q.first() == s && q.last() == y && q.len() == (
            q.len() - 1) as nat + 1);
            assert(has_path_len(links, dir, s, y, (q.len() - 1) as nat));
            assert(q.len() - 1 >= dmap[y]);
            assert(dmap[y] >= dv);
        }
    }
}

/// Along a full parent chain the recorded depth counts up from zero, so the
/// chain's length equals the depth of its final vertex plus one.
proof fn lemma_chain_depths(m: Map<usize, usize>, dmap: Map<usize, nat>, ids: Seq<usize>, k: int)
    requires
        is_parent_chain(m, ids),
        0 <= k < ids.len(),
        dmap.contains_key(ids.first()),
        dmap[ids.first()] == 0,
        forall|c: usize|
            #[trigger] m.contains_key(c) ==> dmap.contains_key(c) && dmap.contains_key(m[c])
                && dmap[c] == dmap[m[c]] + 1,
    ensures
        dmap.contains_key(ids[k]),
        dmap[ids[k]] == k,
    decreases k,
{
    if k > 0 {
        lemma_chain_depths(m, dmap, ids, k - 1);
        assert(m.contains_key(ids[k]) && m[ids[k]] == ids[k - 1]);
    }
}

/// Breadth-first search state: FIFO frontier, parent map, visitor.
pub struct Bfs<G, V> where G: Graph, V: Visitor<G, Event> {
    fringe: VecDeque<VertexDescriptor>,
    parents: HashMap<usize, usize>,
    visitor: V,
    phantom: PhantomData<G>,
}

impl<G> Bfs<G, DefaultVisitor> where G: Graph {
    /// A search that ignores all events.
    pub fn new() -> Self {
        Bfs {
            fringe: VecDeque::new(),
            parents: HashMap::new(),
            visitor: DefaultVisitor,
            phantom: PhantomData,
        }
    }
}

impl<G, V> Bfs<G, V> where G: Graph, V: Visitor<G, Event> {
    /// A search that reports each traversal event to `visitor`.
    pub fn with_visitor(visitor: V) -> Self {
        Bfs { fringe: VecDeque::new(), parents: HashMap::new(), visitor, phantom: PhantomData }
    }

    /// The visitor, for reading what it accumulated.
    pub fn visitor_ref(&self) -> &V {
        &self.visitor
    }

    /// Run the search from `start` until a vertex satisfying `is_goal` is
    /// examined. A returned route is a walk of the graph from `start` to a
    /// vertex the predicate accepted; an absent result means the predicate
    /// rejected every vertex reachable from `start`.
    pub fn run<F: Fn(&VertexDescriptor) -> bool>(
        &mut self,
        start: &VertexDescriptor,
        is_goal: F,
        graph: &G,
    ) -> (r: Option<Vec<VertexDescriptor>>) where
        G: AdjacencyGraph + AdjacencyMatrixGraph + VertexListGraph,

        requires
            graph.wf(),
            graph.vprops().contains_key(start@),
            forall|v: VertexDescriptor| call_requires(is_goal, (&v,)),
        ensures
            (match r {
                Some(p) => {
                    &&& is_path(graph.links(), graph.directed(), vertex_ids(p@))
                    &&& vertex_ids(p@).first() == start@
                    &&& call_ensures(is_goal, (&p@.last(),), true)
                    &&& forall|q: Seq<usize>|
                        (#[trigger] is_path(graph.links(), graph.directed(), q) && q.first()
                            == start@ && q.last() == vertex_ids(p@).last()) ==> q.len() >= p@.len()
                },
                None => forall|w: usize|
                    reachable(graph.links(), graph.directed(), start@, w)
                        ==> exists|dv: VertexDescriptor|
                        dv@ == w && call_ensures(is_goal, (&dv,), false),
            }),
    {
        let ghost links = graph.links();
        let ghost dir = graph.directed();
        let ghost universe = graph.vprops().dom();
        self.fringe.clear();
        self.parents.clear();

        let vs = graph.vertices();
        proof {
            assert(universe =~= vertex_ids(vs@).to_set());
            vertex_ids(vs@).unique_seq_to_set();
        }
        let mut vi: usize = 0;
        while vi < vs.len()
            invariant
                vi <= vs@.len(),
                self.parents@ == Map::<usize, usize>::empty(),
                self.fringe@ == Seq::<VertexDescriptor>::empty(),
            decreases vs@.len() - vi,
        {
            self.visitor.visit(&Event::InitializeVertex(vs[vi]), graph);
            vi = vi + 1;
        }

        let sid = start.index();
        self.visitor.visit(&Event::DiscoverVertex(*start), graph);
        self.fringe.push_back(*start);
        let ghost mut dmap: Map<usize, nat> = Map::<usize, nat>::empty().insert(sid, 0);
        proof {
            assert(self.fringe@[0] == *start);
            assert(discovered(self.parents@, sid) =~= Set::empty().insert(sid));
            assert(forall|v: usize| !(#[trigger] self.parents@.contains_key(v)));
            assert(dmap.dom() =~= discovered(self.parents@, sid));
            let one = seq![sid];
            assert(one.first() == sid && one.last() == sid && one.len() == 1);
            assert(is_path(links, dir, one));
            assert(has_path_len(links, dir, sid, sid, 0));
        }

        let ghost mut examined: Set<usize> = Set::empty();
        loop
            invariant
                graph.wf(),
                links == graph.links(),
                dir == graph.directed(),
                universe == graph.vprops().dom(),
                universe.finite(),
                sid == start@,
                graph.vprops().contains_key(sid),
                forall|v: VertexDescriptor| call_requires(is_goal, (&v,)),
                !self.parents@.contains_key(sid),
                parent_map_acyclic(self.parents@),
                forall|c: usize|
                    #[trigger] self.parents@.contains_key(c) ==> adjacent(
                        links,
                        dir,
                        self.parents@[c],
                        c,
                    ),
                forall|c: usize|
                    #[trigger] self.parents@.contains_key(c) ==> discovered(
                        self.parents@,
                        sid,
                    ).contains(self.parents@[c]),
                discovered(self.parents@, sid).subset_of(universe),
                dmap.dom() == discovered(self.parents@, sid),
                dmap.contains_key(sid) && dmap[sid] == 0,
                forall|c: usize|
                    #[trigger] self.parents@.contains_key(c) ==> dmap[c] == dmap[self.parents@[c]]
                        + 1,
                forall|w: usize|
                    #[trigger] dmap.contains_key(w) ==> has_path_len(links, dir, sid, w, dmap[w]),
                forall|w: usize, n: nat|
                    dmap.contains_key(w) && #[trigger] has_path_len(links, dir, sid, w, n) ==> n
                        >= dmap[w],
                forall|i: int, j: int|
                    #![trigger self.fringe@[i], self.fringe@[j]]
                    0 <= i <= j < self.fringe@.len() ==> dmap[(self.fringe@[i])@] <= dmap[(
                    self.fringe@[j])@] && dmap[(self.fringe@[j])@] <= dmap[(self.fringe@[i])@] + 1,
                forall|i: int|
                    0 <= i < self.fringe@.len() ==> discovered(self.parents@, sid).contains(
                        (#[trigger] self.fringe@[i])@,
                    ),
                forall|w: usize|
                    #[trigger] discovered(self.parents@, sid).contains(w) ==> ((exists|i: int|
                        0 <= i < self.fringe@.len() && (#[trigger] self.fringe@[i])@ == w)
                        || examined.contains(w)),
                examined.subset_of(discovered(self.parents@, sid)),
                forall|w: usize|
                    #[trigger] examined.contains(w) ==> exists|dv: VertexDescriptor|
                        dv@ == w && call_ensures(is_goal, (&dv,), false),
                forall|w: usize, u: usize|
                    examined.contains(w) && #[trigger] adjacent(links, dir, w, u) ==> discovered(
                        self.parents@,
                        sid,
                    ).contains(u),
            ensures
                self.fringe@.len() == 0,
                forall|w: usize|
                    #[trigger] discovered(self.parents@, sid).contains(w) ==> examined.contains(w),
                forall|w: usize|
                    #[trigger] examined.contains(w) ==> exists|dv: VertexDescriptor|
                        dv@ == w && call_ensures(is_goal, (&dv,), false),
                forall|w: usize, u: usize|
                    examined.contains(w) && #[trigger] adjacent(links, dir, w, u) ==> discovered(
                        self.parents@,
                        sid,
                    ).contains(u),
                examined.subset_of(discovered(self.parents@, sid)),
                discovered(self.parents@, sid).contains(sid),
            decreases universe.len() - discovered(self.parents@, sid).len(), self.fringe@.len(),
        {
            proof {
                vstd::set_lib::lemma_len_subset(discovered(self.parents@, sid), universe);
            }
            let ghost fringe_before = self.fringe@;
            let popped = self.fringe.pop_front();
            let vertex = match popped {
                Some(vertex) => vertex,
                None => {
                    break ;
                },
            };
            let ghost fringe_at_pop = self.fringe@;
            let ghost disc_at_pop = discovered(self.parents@, sid);
            let ghost dv = dmap[vertex@];
            proof {
                assert(disc_at_pop.contains(vertex@));
                assert forall|w: usize| #[trigger] disc_at_pop.contains(w) implies ((exists|i: int|
                    0 <= i < fringe_at_pop.len() && (#[trigger] fringe_at_pop[i])@ == w)
                    || examined.contains(w) || w == vertex@) by {
                    if !examined.contains(w) && w != vertex@ {
                        let i = choose|i: int|
                            0 <= i < fringe_before.len() && (#[trigger] fringe_before[i])@ == w;
                        assert(fringe_before[0] == vertex);
                        assert(i != 0);
                        assert(fringe_at_pop[i - 1] == fringe_before[i]);
                        assert(fringe_at_pop[i - 1]@ == w);
                    }
                }
                assert(fringe_before[0] == vertex);
                assert forall|i: int|
                    0 <= i < fringe_at_pop.len() implies dv <= dmap[(#[trigger] fringe_at_pop[i])@]
                    <= dv + 1 by {
                    assert(fringe_at_pop[i] == fringe_before[i + 1]);
                    assert(fringe_before[0] == vertex);
                }
                assert forall|i: int, j: int|
                    #![trigger fringe_at_pop[i], fringe_at_pop[j]]
                    0 <= i <= j < fringe_at_pop.len() implies dmap[(fringe_at_pop[i])@] <= dmap[(
                fringe_at_pop[j])@] by {
                    assert(fringe_at_pop[i] == fringe_before[i + 1]);
                    assert(fringe_at_pop[j] == fringe_before[j + 1]);
                }
            }
            self.visitor.visit(&Event::ExamineVertex(vertex), graph);
            if is_goal(&vertex) {
                let p = reverse_path(&self.parents, vertex);
                proof {
                    let ids = vertex_ids(p@);
                    let m = self.parents@;
                    assert(is_parent_chain(m, ids));
                    assert forall|i: int| 0 <= i < ids.len() - 1 implies adjacent(
                        links,
                        dir,
                        #[trigger] ids[i],
                        ids[i + 1],
                    ) by {
                        assert(m.contains_key(ids[i + 1]) && m[ids[i + 1]] == ids[i]);
                    }
                    assert forall|i: int| 0 <= i < ids.len() implies discovered(m, sid).contains(
                        #[trigger] ids[i],
                    ) by {
                        if i == ids.len() - 1 {
                            assert(ids[i] == vertex@);
                        } else {
                            assert(m.contains_key(ids[i + 1]) && m[ids[i + 1]] == ids[i]);
                        }
                    }
                    assert(ids.first() == sid);
                    lemma_vertex_descriptor_injective(p@.last(), vertex);
                    assert(call_ensures(is_goal, (&p@.last(),), true));
                    // the chain climbs one depth layer per step, so its
                    // length is the goal's depth plus one, and no walk to
                    // the goal is shorter
                    assert forall|c: usize| #[trigger] m.contains_key(c) implies
                        dmap.contains_key(c) && dmap.contains_key(m[c]) && dmap[c] == dmap[m[c]]
                        + 1 by {
                        assert(discovered(m, sid).contains(c));
                        assert(discovered(m, sid).contains(m[c]));
                    }
                    lemma_chain_depths(m, dmap, ids, ids.len() - 1);
                    assert(dmap[vertex@] == ids.len() - 1);
                    assert forall|q: Seq<usize>|
                        (#[trigger] is_path(links, dir, q) && q.first() == sid && q.last()
                            == ids.last()) implies q.len() >= p@.len() by {
                        assert(q.last() == vertex@);
                        assert(is_path(links, dir, q) && q.first() == sid && q.last() == vertex@
                            && q.len() == (q.len() - 1) as nat + 1);
                        assert(has_path_len(links, dir, sid, vertex@, (q.len() - 1) as nat));
                        assert(dmap.contains_key(vertex@));
                        assert((q.len() - 1) as nat >= dmap[vertex@]);
                    }
                }
                return Some(p);
            }
            let adj = graph.adjacent_vertices(vertex);
            proof {
                assert(self.fringe@ == fringe_at_pop);
                assert forall|w: usize|
                    #[trigger] discovered(self.parents@, sid).contains(w) implies ((exists|i: int|
                    0 <= i < self.fringe@.len() && (#[trigger] self.fringe@[i])@ == w)
                    || examined.contains(w) || w == vertex@) by {
                    assert(disc_at_pop.contains(w));
                    if !examined.contains(w) && w != vertex@ {
                        let i = choose|i: int|
                            0 <= i < fringe_at_pop.len() && (#[trigger] fringe_at_pop[i])@ == w;
                        assert(self.fringe@[i]@ == w);
                    }
                }
                assert forall|i: int|
                    0 <= i < self.fringe@.len() implies dv <= dmap[(#[trigger] self.fringe@[i])@]
                    <= dv + 1 by {
                    assert(self.fringe@[i] == fringe_at_pop[i]);
                }
                assert forall|i: int, j: int|
                    #![trigger self.fringe@[i], self.fringe@[j]]
                    0 <= i <= j < self.fringe@.len() implies dmap[(self.fringe@[i])@] <= dmap[(
                self.fringe@[j])@] by {
                    assert(self.fringe@[i] == fringe_at_pop[i]);
                    assert(self.fringe@[j] == fringe_at_pop[j]);
                }
            }
            let mut ai: usize = 0;
            while ai < adj.len()
                invariant
                    graph.wf(),
                    links == graph.links(),
                    dir == graph.directed(),
                    universe == graph.vprops().dom(),
                    universe.finite(),
                    sid == start@,
                    graph.vprops().contains_key(sid),
                    graph.vprops().contains_key(vertex@),
                    forall|v: VertexDescriptor| call_requires(is_goal, (&v,)),
                    ai <= adj@.len(),
                    adjacency_enumeration_ok(graph, vertex, adj@),
                    call_ensures(is_goal, (&vertex,), false),
                    !self.parents@.contains_key(sid),
                    parent_map_acyclic(self.parents@),
                    discovered(self.parents@, sid).contains(vertex@),
                    dmap.dom() == discovered(self.parents@, sid),
                    dmap.contains_key(sid) && dmap[sid] == 0,
                    dv == dmap[vertex@],
                    forall|c: usize|
                        #[trigger] self.parents@.contains_key(c) ==> dmap[c] == dmap[self.parents@[
                        c]] + 1,
                    forall|w: usize|
                        #[trigger] dmap.contains_key(w) ==> has_path_len(
                            links,
                            dir,
                            sid,
                            w,
                            dmap[w],
                        ),
                    forall|w: usize, n: nat|
                        dmap.contains_key(w) && #[trigger] has_path_len(links, dir, sid, w, n)
                            ==> n >= dmap[w],
                    forall|i: int|
                        0 <= i < self.fringe@.len() ==> dv <= dmap[(#[trigger] self.fringe@[i])@]
                            <= dv + 1,
                    forall|i: int, j: int|
                        #![trigger self.fringe@[i], self.fringe@[j]]
                        0 <= i <= j < self.fringe@.len() ==> dmap[(self.fringe@[i])@] <= dmap[(
                        self.fringe@[j])@],
                    forall|c: usize|
                        #[trigger] self.parents@.contains_key(c) ==> adjacent(
                            links,
                            dir,
                            self.parents@[c],
                            c,
                        ),
                    forall|c: usize|
                        #[trigger] self.parents@.contains_key(c) ==> discovered(
                            self.parents@,
                            sid,
                        ).contains(self.parents@[c]),
                    discovered(self.parents@, sid).subset_of(universe),
                    forall|i: int|
                        0 <= i < self.fringe@.len() ==> discovered(self.parents@, sid).contains(
                            (#[trigger] self.fringe@[i])@,
                        ),
                    forall|w: usize|
                        #[trigger] discovered(self.parents@, sid).contains(w) ==> ((exists|i: int|
                            0 <= i < self.fringe@.len() && (#[trigger] self.fringe@[i])@ == w)
                            || examined.contains(w) || w == vertex@),
                    examined.subset_of(discovered(self.parents@, sid)),
                    forall|w: usize|
                        #[trigger] examined.contains(w) ==> exists|dv: VertexDescriptor|
                            dv@ == w && call_ensures(is_goal, (&dv,), false),
                    forall|w: usize, u: usize|
                        examined.contains(w) && #[trigger] adjacent(links, dir, w, u)
                            ==> discovered(self.parents@, sid).contains(u),
                    forall|k: int|
                        0 <= k < ai ==> discovered(self.parents@, sid).contains(
                            (#[trigger] adj@[k])@,
                        ),
                    disc_at_pop.subset_of(discovered(self.parents@, sid)),
                    self.fringe@.len() + disc_at_pop.len() <= fringe_at_pop.len() + discovered(
                        self.parents@,
                        sid,
                    ).len(),
                decreases adj@.len() - ai,
            {
                let w = adj[ai];
                let wid = w.index();
                proof {
                    assert(vertex_ids(adj@)[ai as int] == wid);
                    assert(vertex_ids(adj@).contains(wid));
                    assert(adjacent(links, dir, vertex@, wid));
                }
                let edge = graph.edge(vertex, w).unwrap();
                self.visitor.visit(&Event::ExamineEdge(edge), graph);
                if wid != sid {
                    if !self.parents.contains_key(&wid) {
                        self.visitor.visit(&Event::TreeEdge(edge), graph);
                        let ghost m0 = self.parents@;
                        let ghost dmap0 = dmap;
                        self.parents.insert(wid, vertex.index());
                        proof {
                            assert(self.parents@ == m0.insert(wid, vertex@));
                            assert(!discovered(m0, sid).contains(wid));
                            assert forall|x: usize| #[trigger] m0.contains_key(x) implies m0[x]
                                != wid by {
                                assert(discovered(m0, sid).contains(m0[x]));
                            }
                            lemma_linked_unreferenced(m0, vertex@, wid);
                            lemma_acyclic_insert(m0, wid, vertex@);
                            assert(discovered(self.parents@, sid) =~= discovered(
                                m0,
                                sid,
                            ).insert(wid));
                            assert(m0.dom().finite());
                            assert(discovered(m0, sid).finite());
                            assert(discovered(self.parents@, sid).len() == discovered(
                                m0,
                                sid,
                            ).len() + 1);
                            // record the fresh vertex one layer deeper; the
                            // frontier-crossing argument shows no shorter
                            // walk reaches it
                            dmap = dmap.insert(wid, (dv + 1) as nat);
                            assert(dmap.dom() =~= discovered(self.parents@, sid));
                            let pv = choose|pv: Seq<usize>|
                                is_path(links, dir, pv) && pv.first() == sid && pv.last()
                                    == vertex@ && pv.len() == dv + 1;
                            lemma_path_extend(links, dir, pv, wid);
                            assert(is_path(links, dir, pv.push(wid)) && pv.push(wid).first() == sid
                                && pv.push(wid).last() == wid && pv.push(wid).len() == (dv + 1)
                                as nat + 1);
                            assert(has_path_len(links, dir, sid, wid, (dv + 1) as nat));
                            assert forall|w: usize, n: nat|
                                dmap.contains_key(w) && #[trigger] has_path_len(
                                    links,
                                    dir,
                                    sid,
                                    w,
                                    n,
                                ) implies n >= dmap[w] by {
                                if w == wid {
                                    let q = choose|q: Seq<usize>|
                                        is_path(links, dir, q) && q.first() == sid && q.last()
                                            == wid && q.len() == n + 1;
                                    assert forall|ww: usize|
                                        #[trigger] dmap0.contains_key(ww) && !examined.contains(
                                        ww) implies dmap0[ww] >= dv by {
                                        assert(discovered(m0, sid).contains(ww));
                                        if ww != vertex@ {
                                            let i = choose|i: int|
                                                0 <= i < self.fringe@.len() && (
                                                #[trigger] self.fringe@[i])@ == ww;
                                            assert(dv <= dmap0[(self.fringe@[i])@]);
                                        }
                                    }
                                    lemma_undiscovered_far(
                                        links,
                                        dir,
                                        sid,
                                        dmap0,
                                        examined,
                                        dv,
                                        q,
                                    );
                                }
                            }
                        }
                        self.visitor.visit(&Event::DiscoverVertex(w), graph);
                        let ghost fringe0 = self.fringe@;
                        self.fringe.push_back(w);
                        proof {
                            assert forall|ww: usize|
                                #[trigger] discovered(self.parents@, sid).contains(ww) implies ((
                            exists|i: int|
                                0 <= i < self.fringe@.len() && (#[trigger] self.fringe@[i])@ == ww)
                                || examined.contains(ww) || ww == vertex@) by {
                                if ww == wid {
                                    assert(self.fringe@[self.fringe@.len() - 1]@ == ww);
                                } else {
                                    assert(discovered(m0, sid).contains(ww));
                                    if exists|i: int|
                                        0 <= i < fringe0.len() && (#[trigger] fringe0[i])@ == ww {
                                        let i = choose|i: int|
                                            0 <= i < fringe0.len() && (#[trigger] fringe0[i])@
                                                == ww;
                                        assert(self.fringe@[i]@ == ww);
                                    }
                                }
                            }
                        }
                    } else {
                        self.visitor.visit(&Event::NonTreeEdge(edge), graph);
                    }
                }
                ai = ai + 1;
            }
            self.visitor.visit(&Event::FinishVertex(vertex), graph);
            proof {
                let disc = discovered(self.parents@, sid);
                examined = examined.insert(vertex@);
                assert forall|w: usize, u: usize|
                    examined.contains(w) && #[trigger] adjacent(links, dir, w, u) implies
                    disc.contains(u) by {
                    if w == vertex@ {
                        assert(vertex_ids(adj@).contains(u));
                        let k = choose|k: int|
                            0 <= k < adj@.len() && (vertex_ids(adj@))[k] == u;
                        assert((adj@[k])@ == u);
                        assert(disc.contains(u));
                    }
                }
                assert forall|w: usize| #[trigger] examined.contains(w) implies exists|
                    dv: VertexDescriptor,
                |
                    dv@ == w && call_ensures(is_goal, (&dv,), false) by {
                    if w == vertex@ {
                        assert(vertex@ == w && call_ensures(is_goal, (&vertex,), false));
                    }
                }
                // termination: either something new was discovered, or the
                // fringe shrank by the popped vertex
                vstd::set_lib::lemma_len_subset(disc_at_pop, disc);
                vstd::set_lib::lemma_len_subset(disc, universe);
                assert(self.fringe@.len() + disc_at_pop.len() <= fringe_at_pop.len()
                    + disc.len());
            }
        }
        proof {
            let disc = discovered(self.parents@, sid);
            assert(disc.contains(sid));
            assert forall|w: usize|
                reachable(links, dir, sid, w) implies exists|dv: VertexDescriptor|
                dv@ == w && call_ensures(is_goal, (&dv,), false) by {
                lemma_reachable_in_closed_set(links, dir, sid, w, disc);
                assert(examined.contains(w));
            }
        }
        None
    }
}

} // verus!
