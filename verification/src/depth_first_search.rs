//! Depth-first search: the same discovery, parent-recording and goal-test
//! state machine as breadth-first search, but with a LIFO stack frontier,
//! which changes the exploration order. Returns the reconstructed
//! start-to-goal route, or absent when no reachable vertex satisfies the
//! goal predicate.

use core::marker::PhantomData;
use std::collections::HashMap;

use vstd::prelude::*;

use crate::graph::{
    adjacency_enumeration_ok, adjacent, is_path, lemma_reachable_in_closed_set,
    lemma_vertex_descriptor_injective, reachable, vertex_ids, AdjacencyGraph,
    AdjacencyMatrixGraph, Graph, VertexDescriptor, VertexListGraph,
};
use crate::path::{
    discovered, is_parent_chain, lemma_acyclic_insert, lemma_linked_unreferenced,
    parent_map_acyclic, reverse_path,
};
use crate::visitor::{DefaultVisitor, Event, Visitor};

verus! {

broadcast use vstd::std_specs::hash::group_hash_axioms, vstd::set::axiom_set_insert_len,
    vstd::set::axiom_set_insert_finite, vstd::set::axiom_set_empty_finite,
    vstd::set::axiom_set_empty_len;

/// Depth-first search state: LIFO frontier, parent map, visitor.
pub struct Dfs<G, V> where G: Graph, V: Visitor<G, Event> {
    fringe: Vec<VertexDescriptor>,
    parents: HashMap<usize, usize>,
    visitor: V,
    phantom: PhantomData<G>,
}

impl<G> Dfs<G, DefaultVisitor> where G: Graph {
    /// A search that ignores all events.
    pub fn new() -> Self {
        Dfs {
            fringe: Vec::new(),
            parents: HashMap::new(),
            visitor: DefaultVisitor,
            phantom: PhantomData,
        }
    }
}

impl<G, V> Dfs<G, V> where G: Graph, V: Visitor<G, Event> {
    /// A search that reports each traversal event to `visitor`.
    pub fn with_visitor(visitor: V) -> Self {
        Dfs { fringe: Vec::new(), parents: HashMap::new(), visitor, phantom: PhantomData }
    }

    /// The visitor, for reading what it accumulated.
    pub fn visitor_ref(&self) -> &V {
        &self.visitor
    }

    /// Run the search from `start` until a vertex satisfying `is_goal` is
    /// examined. A returned route is a walk of the graph from `start` to a
    /// vertex the predicate accepted; an absent result means the predicate
    /// rejected every vertex reachable from `start`.
    pub fn run<F: Fn(&VertexDescriptor) -> bool>(
        &mut self,
        start: &VertexDescriptor,
        is_goal: F,
        graph: &G,
    ) -> (r: Option<Vec<VertexDescriptor>>) where
        G: AdjacencyGraph + AdjacencyMatrixGraph + VertexListGraph,

        requires
            graph.wf(),
            graph.vprops().contains_key(start@),
            forall|v: VertexDescriptor| call_requires(is_goal, (&v,)),
        ensures
            (match r {
                Some(p) => {
                    &&& is_path(graph.links(), graph.directed(), vertex_ids(p@))
                    &&& vertex_ids(p@).first() == start@
                    &&& call_ensures(is_goal, (&p@.last(),), true)
                },
                None => forall|w: usize|
                    reachable(graph.links(), graph.directed(), start@, w)
                        ==> exists|dv: VertexDescriptor|
                        dv@ == w && call_ensures(is_goal, (&dv,), false),
            }),
    {
        let ghost links = graph.links();
        let ghost dir = graph.directed();
        let ghost universe = graph.vprops().dom();
        self.fringe.clear();
        self.parents.clear();

        let vs = graph.vertices();
        proof {
            assert(universe =~= vertex_ids(vs@).to_set());
            vertex_ids(vs@).unique_seq_to_set();
        }
        let mut vi: usize = 0;
        while vi < vs.len()
            invariant
                vi <= vs@.len(),
                self.parents@ == Map::<usize, usize>::empty(),
                self.fringe@ == Seq::<VertexDescriptor>::empty(),
            decreases vs@.len() - vi,
        {
            self.visitor.visit(&Event::InitializeVertex(vs[vi]), graph);
            vi = vi + 1;
        }

        let sid = start.index();
        self.visitor.visit(&Event::DiscoverVertex(*start), graph);
        self.fringe.push(*start);
        proof {
            assert(self.fringe@[0] == *start);
            assert(discovered(self.parents@, sid) =~= Set::empty().insert(sid));
            assert(forall|v: usize| !(#[trigger] self.parents@.contains_key(v)));
        }

        let ghost mut examined: Set<usize> = Set::empty();
        loop
            invariant
                graph.wf(),
                links == graph.links(),
                dir == graph.directed(),
                universe == graph.vprops().dom(),
                universe.finite(),
                sid == start@,
                graph.vprops().contains_key(sid),
                forall|v: VertexDescriptor| call_requires(is_goal, (&v,)),
                !self.parents@.contains_key(sid),
                parent_map_acyclic(self.parents@),
                forall|c: usize|
                    #[trigger] self.parents@.contains_key(c) ==> adjacent(
                        links,
                        dir,
                        self.parents@[c],
                        c,
                    ),
                forall|c: usize|
                    #[trigger] self.parents@.contains_key(c) ==> discovered(
                        self.parents@,
                        sid,
                    ).contains(self.parents@[c]),
                discovered(self.parents@, sid).subset_of(universe),
                forall|i: int|
                    0 <= i < self.fringe@.len() ==> discovered(self.parents@, sid).contains(
                        (#[trigger] self.fringe@[i])@,
                    ),
                forall|w: usize|
                    #[trigger] discovered(self.parents@, sid).contains(w) ==> ((exists|i: int|
                        0 <= i < self.fringe@.len() && (#[trigger] self.fringe@[i])@ == w)
                        || examined.contains(w)),
                examined.subset_of(discovered(self.parents@, sid)),
                forall|w: usize|
                    #[trigger] examined.contains(w) ==> exists|dv: VertexDescriptor|
                        dv@ == w && call_ensures(is_goal, (&dv,), false),
                forall|w: usize, u: usize|
                    examined.contains(w) && #[trigger] adjacent(links, dir, w, u) ==> discovered(
                        self.parents@,
                        sid,
                    ).contains(u),
            ensures
                self.fringe@.len() == 0,
                forall|w: usize|
                    #[trigger] discovered(self.parents@, sid).contains(w) ==> examined.contains(w),
                forall|w: usize|
                    #[trigger] examined.contains(w) ==> exists|dv: VertexDescriptor|
                        dv@ == w && call_ensures(is_goal, (&dv,), false),
                forall|w: usize, u: usize|
                    examined.contains(w) && #[trigger] adjacent(links, dir, w, u) ==> discovered(
                        self.parents@,
                        sid,
                    ).contains(u),
                examined.subset_of(discovered(self.parents@, sid)),
                discovered(self.parents@, sid).contains(sid),
            decreases universe.len() - discovered(self.parents@, sid).len(), self.fringe@.len(),
        {
            proof {
                vstd::set_lib::lemma_len_subset(discovered(self.parents@, sid), universe);
            }
            let ghost fringe_before = self.fringe@;
            let popped = self.fringe.pop();
            let vertex = match popped {
                Some(vertex) => vertex,
                None => {
                    break ;
                },
            };
            let ghost fringe_at_pop = self.fringe@;
            let ghost disc_at_pop = discovered(self.parents@, sid);
            proof {
                assert(disc_at_pop.contains(vertex@));
                assert forall|w: usize| #[trigger] disc_at_pop.contains(w) implies ((exists|i: int|
                    0 <= i < fringe_at_pop.len() && (#[trigger] fringe_at_pop[i])@ == w)
                    || examined.contains(w) || w == vertex@) by {
                    if !examined.contains(w) && w != vertex@ {
                        let i = choose|i: int|
                            0 <= i < fringe_before.len() && (#[trigger] fringe_before[i])@ == w;
                        assert(fringe_before[fringe_before.len() - 1] == vertex);
                        assert(i != fringe_before.len() - 1);
                        assert(fringe_at_pop[i] == fringe_before[i]);
                        assert(fringe_at_pop[i]@ == w);
                    }
                }
            }
            self.visitor.visit(&Event::ExamineVertex(vertex), graph);
            if is_goal(&vertex) {
                let p = reverse_path(&self.parents, vertex);
                proof {
                    let ids = vertex_ids(p@);
                    let m = self.parents@;
                    assert(is_parent_chain(m, ids));
                    assert forall|i: int| 0 <= i < ids.len() - 1 implies adjacent(
                        links,
                        dir,
                        #[trigger] ids[i],
                        ids[i + 1],
                    ) by {
                        assert(m.contains_key(ids[i + 1]) && m[ids[i + 1]] == ids[i]);
                    }
                    assert forall|i: int| 0 <= i < ids.len() implies discovered(m, sid).contains(
                        #[trigger] ids[i],
                    ) by {
                        if i == ids.len() - 1 {
                            assert(ids[i] == vertex@);
                        } else {
                            assert(m.contains_key(ids[i + 1]) && m[ids[i + 1]] == ids[i]);
                        }
                    }
                    assert(ids.first() == sid);
                    lemma_vertex_descriptor_injective(p@.last(), vertex);
                    assert(call_ensures(is_goal, (&p@.last(),), true));
                }
                return Some(p);
            }
            let adj = graph.adjacent_vertices(vertex);
            proof {
                assert(self.fringe@ == fringe_at_pop);
                assert forall|w: usize|
                    #[trigger] discovered(self.parents@, sid).contains(w) implies ((exists|i: int|
                    0 <= i < self.fringe@.len() && (#[trigger] self.fringe@[i])@ == w)
                    || examined.contains(w) || w == vertex@) by {
                    assert(disc_at_pop.contains(w));
                    if !examined.contains(w) && w != vertex@ {
                        let i = choose|i: int|
                            0 <= i < fringe_at_pop.len() && (#[trigger] fringe_at_pop[i])@ == w;
                        assert(self.fringe@[i]@ == w);
                    }
                }
            }
            let mut ai: usize = 0;
            while ai < adj.len()
                invariant
                    graph.wf(),
                    links == graph.links(),
                    dir == graph.directed(),
                    universe == graph.vprops().dom(),
                    universe.finite(),
                    sid == start@,
                    graph.vprops().contains_key(sid),
                    graph.vprops().contains_key(vertex@),
                    forall|v: VertexDescriptor| call_requires(is_goal, (&v,)),
                    ai <= adj@.len(),
                    adjacency_enumeration_ok(graph, vertex, adj@),
                    call_ensures(is_goal, (&vertex,), false),
                    !self.parents@.contains_key(sid),
                    parent_map_acyclic(self.parents@),
                    discovered(self.parents@, sid).contains(vertex@),
                    forall|c: usize|
                        #[trigger] self.parents@.contains_key(c) ==> adjacent(
                            links,
                            dir,
                            self.parents@[c],
                            c,
                        ),
                    forall|c: usize|
                        #[trigger] self.parents@.contains_key(c) ==> discovered(
                            self.parents@,
                            sid,
                        ).contains(self.parents@[c]),
                    discovered(self.parents@, sid).subset_of(universe),
                    forall|i: int|
                        0 <= i < self.fringe@.len() ==> discovered(self.parents@, sid).contains(
                            (#[trigger] self.fringe@[i])@,
                        ),
                    forall|w: usize|
                        #[trigger] discovered(self.parents@, sid).contains(w) ==> ((exists|i: int|
                            0 <= i < self.fringe@.len() && (#[trigger] self.fringe@[i])@ == w)
                            || examined.contains(w) || w == vertex@),
                    examined.subset_of(discovered(self.parents@, sid)),
                    forall|w: usize|
                        #[trigger] examined.contains(w) ==> exists|dv: VertexDescriptor|
                            dv@ == w && call_ensures(is_goal, (&dv,), false),
                    forall|w: usize, u: usize|
                        examined.contains(w) && #[trigger] adjacent(links, dir, w, u)
                            ==> discovered(self.parents@, sid).contains(u),
                    forall|k: int|
                        0 <= k < ai ==> discovered(self.parents@, sid).contains(
                            (#[trigger] adj@[k])@,
                        ),
                    disc_at_pop.subset_of(discovered(self.parents@, sid)),
                    self.fringe@.len() + disc_at_pop.len() <= fringe_at_pop.len() + discovered(
                        self.parents@,
                        sid,
                    ).len(),
                decreases adj@.len() - ai,
            {
                let w = adj[ai];
                let wid = w.index();
                proof {
                    assert(vertex_ids(adj@)[ai as int] == wid);
                    assert(vertex_ids(adj@).contains(wid));
                    assert(adjacent(links, dir, vertex@, wid));
                }
                let edge = graph.edge(vertex, w).unwrap();
                self.visitor.visit(&Event::ExamineEdge(edge), graph);
                if wid != sid {
                    if !self.parents.contains_key(&wid) {
                        self.visitor.visit(&Event::TreeEdge(edge), graph);
                        let ghost m0 = self.parents@;
                        self.parents.insert(wid, vertex.index());
                        proof {
                            assert(self.parents@ == m0.insert(wid, vertex@));
                            assert(!discovered(m0, sid).contains(wid));
                            assert forall|x: usize| #[trigger] m0.contains_key(x) implies m0[x]
                                != wid by {
                                assert(discovered(m0, sid).contains(m0[x]));
                            }
                            lemma_linked_unreferenced(m0, vertex@, wid);
                            lemma_acyclic_insert(m0, wid, vertex@);
                            assert(discovered(self.parents@, sid) =~= discovered(
                                m0,
                                sid,
                            ).insert(wid));
                            assert(m0.dom().finite());
                            assert(discovered(m0, sid).finite());
                            assert(discovered(self.parents@, sid).len() == discovered(
                                m0,
                                sid,
                            ).len() + 1);
                        }
                        self.visitor.visit(&Event::DiscoverVertex(w), graph);
                        let ghost fringe0 = self.fringe@;
                        self.fringe.push(w);
                        proof {
                            assert forall|ww: usize|
                                #[trigger] discovered(self.parents@, sid).contains(ww) implies ((
                            exists|i: int|
                                0 <= i < self.fringe@.len() && (#[trigger] self.fringe@[i])@ == ww)
                                || examined.contains(ww) || ww == vertex@) by {
                                if ww == wid {
                                    assert(self.fringe@[self.fringe@.len() - 1]@ == ww);
                                } else {
                                    assert(discovered(m0, sid).contains(ww));
                                    if exists|i: int|
                                        0 <= i < fringe0.len() && (#[trigger] fringe0[i])@ == ww {
                                        let i = choose|i: int|
                                            0 <= i < fringe0.len() && (#[trigger] fringe0[i])@
                                                == ww;
                                        assert(self.fringe@[i]@ == ww);
                                    }
                                }
                            }
                        }
                    } else {
                        self.visitor.visit(&Event::NonTreeEdge(edge), graph);
                    }
                }
                ai = ai + 1;
            }
            self.visitor.visit(&Event::FinishVertex(vertex), graph);
            proof {
                let disc = discovered(self.parents@, sid);
                examined = examined.insert(vertex@);
                assert forall|w: usize, u: usize|
                    examined.contains(w) && #[trigger] adjacent(links, dir, w, u) implies
                    disc.contains(u) by {
                    if w == vertex@ {
                        assert(vertex_ids(adj@).contains(u));
                        let k = choose|k: int|
                            0 <= k < adj@.len() && (vertex_ids(adj@))[k] == u;
                        assert((adj@[k])@ == u);
                        assert(disc.contains(u));
                    }
                }
                assert forall|w: usize| #[trigger] examined.contains(w) implies exists|
                    dv: VertexDescriptor,
                |
                    dv@ == w && call_ensures(is_goal, (&dv,), false) by {
                    if w == vertex@ {
                        assert(vertex@ == w && call_ensures(is_goal, (&vertex,), false));
                    }
                }
                // termination: either something new was discovered, or the
                // fringe shrank by the popped vertex
                vstd::set_lib::lemma_len_subset(disc_at_pop, disc);
                vstd::set_lib::lemma_len_subset(disc, universe);
                assert(self.fringe@.len() + disc_at_pop.len() <= fringe_at_pop.len()
                    + disc.len());
            }
        }
        proof {
            let disc = discovered(self.parents@, sid);
            assert(disc.contains(sid));
            assert forall|w: usize|
                reachable(links, dir, sid, w) implies exists|dv: VertexDescriptor|
                dv@ == w && call_ensures(is_goal, (&dv,), false) by {
                lemma_reachable_in_closed_set(links, dir, sid, w, disc);
                assert(examined.contains(w));
            }
        }
        None
    }
}

} // verus!
