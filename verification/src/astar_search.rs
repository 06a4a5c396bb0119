//! Heuristic best-first search. The frontier holds candidate states ordered
//! by `evaluation = accumulated cost + heuristic(vertex)`; a vertex whose
//! recorded cost improves is re-opened by pushing a fresh state, and the
//! stale entry is simply examined again when popped (lazy deletion).
//! Returns the reconstructed start-to-goal route, or absent when no
//! reachable vertex satisfies the goal predicate.

use core::marker::PhantomData;
use std::collections::HashMap;

use vstd::prelude::*;

use crate::graph::{
    adjacency_enumeration_ok, adjacent, is_path, lemma_reachable_in_closed_set,
    lemma_vertex_descriptor_injective, reachable, vertex_ids, AdjacencyGraph,
    AdjacencyMatrixGraph, EdgeDescriptor, FromUsize, Graph, VertexDescriptor, VertexListGraph,
};
use crate::path::{
    discovered, is_parent_chain, lemma_acyclic_insert, lemma_linked_descends,
    lemma_linked_unreferenced, linked, parent_map_acyclic, reverse_path,
};
use crate::visitor::{DefaultVisitor, Event, Visitor};

verus! {

broadcast use vstd::std_specs::hash::group_hash_axioms, vstd::set::axiom_set_insert_len,
    vstd::set::axiom_set_insert_finite, vstd::set::axiom_set_remove_len,
    vstd::set::axiom_set_remove_finite, vstd::set::axiom_set_choose_len,
    vstd::set::axiom_set_contains_len, vstd::set::axiom_set_empty_finite,
    vstd::set::axiom_set_empty_len;

/// A frontier candidate: the vertex, the accumulated cost of the route that
/// pushed it, and that cost plus the vertex's heuristic value.
#[derive(Clone, Copy)]
struct State {
    evaluation: u64,
    cost: u64,
    vertex: usize,
}

/// The cost a search has recorded for vertex `w`: zero at the start vertex,
/// the map entry at a discovered vertex, and a sentinel below all real
/// costs elsewhere.
pub open spec fn recorded_cost(costs: Map<usize, u64>, start: usize, w: usize) -> int {
    if w == start {
        0
    } else if costs.contains_key(w) {
        costs[w] as int
    } else {
        -1
    }
}

/// The sum of all recorded costs: together with the number of undiscovered
/// vertices and the frontier length, the measure that shrinks as the search
/// runs.
pub open spec fn cost_sum(m: Map<usize, u64>) -> int
    decreases m.dom().len(),
{
    if m.dom().finite() && m.dom().len() > 0 {
        let k = m.dom().choose();
        m[k] + cost_sum(m.remove(k))
    } else {
        0
    }
}

proof fn lemma_cost_sum_nonneg(m: Map<usize, u64>)
    ensures
        cost_sum(m) >= 0,
    decreases m.dom().len(),
{
    if m.dom().finite() && m.dom().len() > 0 {
        let k = m.dom().choose();
        lemma_cost_sum_nonneg(m.remove(k));
    }
}

/// Splitting any one entry out of the sum.
proof fn lemma_cost_sum_remove(m: Map<usize, u64>, k: usize)
    requires
        m.dom().finite(),
        m.contains_key(k),
    ensures
        cost_sum(m) == m[k] + cost_sum(m.remove(k)),
    decreases m.dom().len(),
{
    let c = m.dom().choose();
    assert(m.contains_key(c));
    if c == k {
    } else {
        lemma_cost_sum_remove(m.remove(c), k);
        lemma_cost_sum_remove(m.remove(k), c);
        assert(m.remove(c).remove(k) =~= m.remove(k).remove(c));
        assert(m.remove(c)[k] == m[k] && m.remove(k)[c] == m[c]);
    }
}

/// Lowering one entry lowers the sum by the difference.
proof fn lemma_cost_sum_update(m: Map<usize, u64>, k: usize, c: u64)
    requires
        m.dom().finite(),
        m.contains_key(k),
    ensures
        cost_sum(m.insert(k, c)) == cost_sum(m) - m[k] + c,
{
    lemma_cost_sum_remove(m, k);
    assert(m.insert(k, c).dom() =~= m.dom());
    lemma_cost_sum_remove(m.insert(k, c), k);
    assert(m.insert(k, c).remove(k) =~= m.remove(k));
}

/// Remove and return a state of minimal evaluation (the earliest such state;
/// a later equal one stays). Absent when the frontier is empty.
fn pop_min(fringe: &mut Vec<State>) -> (r: Option<State>)
    ensures
        (match r {
            Some(s) => {
                &&& old(fringe)@.len() > 0
                &&& final(fringe)@.len() == old(fringe)@.len() - 1
                &&& exists|i: int|
                    0 <= i < old(fringe)@.len() && old(fringe)@[i] == s && final(fringe)@ == old(
                        fringe,
                    )@.update(i, old(fringe)@.last()).drop_last()
                &&& forall|j: int|
                    0 <= j < old(fringe)@.len() ==> s.evaluation <= (#[trigger] old(
                        fringe,
                    )@[j]).evaluation
            },
            None => old(fringe)@.len() == 0 && final(fringe)@ == old(fringe)@,
        }),
{
    if fringe.len() == 0 {
        return None;
    }
    let mut best: usize = 0;
    let mut j: usize = 1;
    while j < fringe.len()
        invariant
            fringe@ == old(fringe)@,
            fringe@.len() > 0,
            best < j,
            j <= fringe@.len(),
            forall|k: int|
                0 <= k < j ==> fringe@[best as int].evaluation <= (#[trigger] fringe@[k]).evaluation,
        decreases fringe@.len() - j,
    {
        if fringe[j].evaluation < fringe[best].evaluation {
            best = j;
        }
        j = j + 1;
    }
    let s = fringe.swap_remove(best);
    proof {
        assert(old(fringe)@[best as int] == s);
    }
    Some(s)
}

/// Heuristic best-first search state: evaluation-ordered frontier, parent
/// map, best-known-cost map, visitor.
pub struct Astar<T, V> where T: Graph, V: Visitor<T, Event> {
    fringe: Vec<State>,
    parents: HashMap<usize, usize>,
    costs: HashMap<usize, u64>,
    visitor: V,
    phantom: PhantomData<T>,
}

impl<T> Astar<T, DefaultVisitor> where T: Graph {
    /// A search that ignores all events.
    pub fn new() -> Self {
        Self::with_visitor(DefaultVisitor)
    }
}

impl<T, V> Astar<T, V> where T: Graph, V: Visitor<T, Event> {
    /// A search that reports each traversal event to `visitor`.
    pub fn with_visitor(visitor: V) -> Self {
        Astar {
            fringe: Vec::new(),
            parents: HashMap::new(),
            costs: HashMap::new(),
            visitor,
            phantom: PhantomData,
        }
    }

    /// The visitor, for reading what it accumulated.
    pub fn visitor_ref(&self) -> &V {
        &self.visitor
    }

    /// Run the search from `start` until a vertex satisfying `is_goal` is
    /// examined, expanding the frontier state of least
    /// `cost + heuristic` first and re-opening a vertex whenever a cheaper
    /// route to it is found. A returned route is a walk of the graph from
    /// `start` to a vertex the predicate accepted; an absent result means
    /// the predicate rejected every vertex reachable from `start`.
    /// Accumulated costs saturate at the largest `u64` value.
    pub fn run<F, G, H>(
        &mut self,
        start: &VertexDescriptor,
        edge_cost: G,
        heuristic: H,
        is_goal: F,
        graph: &T,
    ) -> (r: Option<Vec<VertexDescriptor>>) where
        F: Fn(&VertexDescriptor) -> bool,
        G: Fn(&EdgeDescriptor, &T) -> u64,
        H: Fn(&VertexDescriptor, &T) -> u64,
        T: AdjacencyGraph + AdjacencyMatrixGraph + VertexListGraph,

        requires
            graph.wf(),
            graph.vprops().contains_key(start@),
            forall|v: VertexDescriptor| call_requires(is_goal, (&v,)),
            forall|e: EdgeDescriptor| call_requires(edge_cost, (&e, graph)),
            forall|v: VertexDescriptor| call_requires(heuristic, (&v, graph)),
        ensures
            (match r {
                Some(p) => {
                    &&& is_path(graph.links(), graph.directed(), vertex_ids(p@))
                    &&& vertex_ids(p@).first() == start@
                    &&& call_ensures(is_goal, (&p@.last(),), true)
                },
                None => forall|w: usize|
                    reachable(graph.links(), graph.directed(), start@, w)
                        ==> exists|dv: VertexDescriptor|
                        dv@ == w && call_ensures(is_goal, (&dv,), false),
            }),
    {
        let ghost links = graph.links();
        let ghost dir = graph.directed();
        let ghost universe = graph.vprops().dom();
        self.fringe.clear();
        self.parents.clear();
        self.costs.clear();

        let vs = graph.vertices();
        proof {
            assert(universe =~= vertex_ids(vs@).to_set());
            vertex_ids(vs@).unique_seq_to_set();
        }
        let mut vi: usize = 0;
        while vi < vs.len()
            invariant
                vi <= vs@.len(),
                self.parents@ == Map::<usize, usize>::empty(),
                self.costs@ == Map::<usize, u64>::empty(),
                self.fringe@ == Seq::<State>::empty(),
            decreases vs@.len() - vi,
        {
            self.visitor.visit(&Event::InitializeVertex(vs[vi]), graph);
            vi = vi + 1;
        }

        let sid = start.index();
        self.visitor.visit(&Event::DiscoverVertex(*start), graph);
        let h0 = heuristic(start, graph);
        self.fringe.push(State { evaluation: h0, cost: 0, vertex: sid });
        proof {
            assert(self.fringe@[0].vertex == sid);
            assert(discovered(self.parents@, sid) =~= Set::empty().insert(sid));
            assert(forall|v: usize| !(#[trigger] self.parents@.contains_key(v)));
        }

        let ghost mut examined: Set<usize> = Set::empty();
        loop
            invariant
                graph.wf(),
                links == graph.links(),
                dir == graph.directed(),
                universe == graph.vprops().dom(),
                universe.finite(),
                sid == start@,
                graph.vprops().contains_key(sid),
                forall|v: VertexDescriptor| call_requires(is_goal, (&v,)),
                forall|e: EdgeDescriptor| call_requires(edge_cost, (&e, graph)),
                forall|v: VertexDescriptor| call_requires(heuristic, (&v, graph)),
                !self.parents@.contains_key(sid),
                self.costs@.dom() == self.parents@.dom(),
                parent_map_acyclic(self.parents@),
                forall|c: usize|
                    #[trigger] self.parents@.contains_key(c) ==> adjacent(
                        links,
                        dir,
                        self.parents@[c],
                        c,
                    ),
                forall|c: usize|
                    #[trigger] self.parents@.contains_key(c) ==> discovered(
                        self.parents@,
                        sid,
                    ).contains(self.parents@[c]),
                forall|c: usize|
                    #[trigger] self.parents@.contains_key(c) ==> recorded_cost(
                        self.costs@,
                        sid,
                        self.parents@[c],
                    ) <= self.costs@[c],
                discovered(self.parents@, sid).subset_of(universe),
                forall|i: int|
                    0 <= i < self.fringe@.len() ==> discovered(self.parents@, sid).contains(
                        (#[trigger] self.fringe@[i]).vertex,
                    ),
                forall|i: int|
                    0 <= i < self.fringe@.len() ==> recorded_cost(
                        self.costs@,
                        sid,
                        (#[trigger] self.fringe@[i]).vertex,
                    ) <= self.fringe@[i].cost,
                forall|w: usize|
                    #[trigger] discovered(self.parents@, sid).contains(w) ==> ((exists|i: int|
                        0 <= i < self.fringe@.len() && (#[trigger] self.fringe@[i]).vertex == w)
                        || examined.contains(w)),
                examined.subset_of(discovered(self.parents@, sid)),
                forall|w: usize|
                    #[trigger] examined.contains(w) ==> exists|dv: VertexDescriptor|
                        dv@ == w && call_ensures(is_goal, (&dv,), false),
                forall|w: usize, u: usize|
                    examined.contains(w) && #[trigger] adjacent(links, dir, w, u) ==> discovered(
                        self.parents@,
                        sid,
                    ).contains(u),
            ensures
                self.fringe@.len() == 0,
                forall|w: usize|
                    #[trigger] discovered(self.parents@, sid).contains(w) ==> examined.contains(w),
                forall|w: usize|
                    #[trigger] examined.contains(w) ==> exists|dv: VertexDescriptor|
                        dv@ == w && call_ensures(is_goal, (&dv,), false),
                forall|w: usize, u: usize|
                    examined.contains(w) && #[trigger] adjacent(links, dir, w, u) ==> discovered(
                        self.parents@,
                        sid,
                    ).contains(u),
                discovered(self.parents@, sid).contains(sid),
            decreases
                    universe.len() - discovered(self.parents@, sid).len(),
                    cost_sum(self.costs@),
                    self.fringe@.len(),
        {
            proof {
                vstd::set_lib::lemma_len_subset(discovered(self.parents@, sid), universe);
                lemma_cost_sum_nonneg(self.costs@);
            }
            let ghost fringe_before = self.fringe@;
            let popped = pop_min(&mut self.fringe);
            let state = match popped {
                Some(state) => state,
                None => {
                    break ;
                },
            };
            let vid = state.vertex;
            let state_cost = state.cost;
            let vertex = VertexDescriptor::from_usize(vid);
            let ghost fringe_at_pop = self.fringe@;
            let ghost disc_at_pop = discovered(self.parents@, sid);
            let ghost sum_at_pop = cost_sum(self.costs@);
            proof {
                assert(disc_at_pop.contains(vid));
                let pi = choose|pi: int|
                    0 <= pi < fringe_before.len() && fringe_before[pi] == state && fringe_at_pop
                        == fringe_before.update(pi, fringe_before.last()).drop_last();
                assert forall|w: usize| #[trigger] disc_at_pop.contains(w) implies ((exists|i: int|
                    0 <= i < fringe_at_pop.len() && (#[trigger] fringe_at_pop[i]).vertex == w)
                    || examined.contains(w) || w == vid) by {
                    if !examined.contains(w) && w != vid {
                        let i = choose|i: int|
                            0 <= i < fringe_before.len() && (#[trigger] fringe_before[i]).vertex
                                == w;
                        assert(i != pi);
                        if i == fringe_before.len() - 1 {
                            assert(fringe_at_pop[pi].vertex == w);
                        } else {
                            assert(fringe_at_pop[i].vertex == w);
                        }
                    }
                }
            }
            self.visitor.visit(&Event::ExamineVertex(vertex), graph);
            if is_goal(&vertex) {
                let p = reverse_path(&self.parents, vertex);
                proof {
                    let ids = vertex_ids(p@);
                    let m = self.parents@;
                    assert(is_parent_chain(m, ids));
                    assert forall|i: int| 0 <= i < ids.len() - 1 implies adjacent(
                        links,
                        dir,
                        #[trigger] ids[i],
                        ids[i + 1],
                    ) by {
                        assert(m.contains_key(ids[i + 1]) && m[ids[i + 1]] == ids[i]);
                    }
                    assert forall|i: int| 0 <= i < ids.len() implies discovered(m, sid).contains(
                        #[trigger] ids[i],
                    ) by {
                        if i == ids.len() - 1 {
                            assert(ids[i] == vertex@);
                        } else {
                            assert(m.contains_key(ids[i + 1]) && m[ids[i + 1]] == ids[i]);
                        }
                    }
                    assert(ids.first() == sid);
                    lemma_vertex_descriptor_injective(p@.last(), vertex);
                    assert(call_ensures(is_goal, (&p@.last(),), true));
                }
                return Some(p);
            }
            let adj = graph.adjacent_vertices(vertex);
            proof {
                assert(self.fringe@ == fringe_at_pop);
                assert forall|w: usize|
                    #[trigger] discovered(self.parents@, sid).contains(w) implies ((exists|i: int|
                    0 <= i < self.fringe@.len() && (#[trigger] self.fringe@[i]).vertex == w)
                    || examined.contains(w) || w == vid) by {
                    assert(disc_at_pop.contains(w));
                    if !examined.contains(w) && w != vid {
                        let i = choose|i: int|
                            0 <= i < fringe_at_pop.len() && (#[trigger] fringe_at_pop[i]).vertex
                                == w;
                        assert(self.fringe@[i].vertex == w);
                    }
                }
            }
            let mut ai: usize = 0;
            while ai < adj.len()
                invariant
                    graph.wf(),
                    links == graph.links(),
                    dir == graph.directed(),
                    universe == graph.vprops().dom(),
                    universe.finite(),
                    sid == start@,
                    graph.vprops().contains_key(sid),
                    graph.vprops().contains_key(vid),
                    vid == vertex@,
                    forall|v: VertexDescriptor| call_requires(is_goal, (&v,)),
                    forall|e: EdgeDescriptor| call_requires(edge_cost, (&e, graph)),
                    forall|v: VertexDescriptor| call_requires(heuristic, (&v, graph)),
                    ai <= adj@.len(),
                    adjacency_enumeration_ok(graph, vertex, adj@),
                    call_ensures(is_goal, (&vertex,), false),
                    !self.parents@.contains_key(sid),
                    self.costs@.dom() == self.parents@.dom(),
                    parent_map_acyclic(self.parents@),
                    discovered(self.parents@, sid).contains(vid),
                    state_cost as int >= recorded_cost(self.costs@, sid, vid),
                    forall|c: usize|
                        #[trigger] self.parents@.contains_key(c) ==> adjacent(
                            links,
                            dir,
                            self.parents@[c],
                            c,
                        ),
                    forall|c: usize|
                        #[trigger] self.parents@.contains_key(c) ==> discovered(
                            self.parents@,
                            sid,
                        ).contains(self.parents@[c]),
                    forall|c: usize|
                        #[trigger] self.parents@.contains_key(c) ==> recorded_cost(
                            self.costs@,
                            sid,
                            self.parents@[c],
                        ) <= self.costs@[c],
                    discovered(self.parents@, sid).subset_of(universe),
                    forall|i: int|
                        0 <= i < self.fringe@.len() ==> discovered(self.parents@, sid).contains(
                            (#[trigger] self.fringe@[i]).vertex,
                        ),
                    forall|i: int|
                        0 <= i < self.fringe@.len() ==> recorded_cost(
                            self.costs@,
                            sid,
                            (#[trigger] self.fringe@[i]).vertex,
                        ) <= self.fringe@[i].cost,
                    forall|w: usize|
                        #[trigger] discovered(self.parents@, sid).contains(w) ==> ((exists|i: int|
                            0 <= i < self.fringe@.len() && (#[trigger] self.fringe@[i]).vertex == w)
                            || examined.contains(w) || w == vid),
                    examined.subset_of(discovered(self.parents@, sid)),
                    forall|w: usize|
                        #[trigger] examined.contains(w) ==> exists|dv: VertexDescriptor|
                            dv@ == w && call_ensures(is_goal, (&dv,), false),
                    forall|w: usize, u: usize|
                        examined.contains(w) && #[trigger] adjacent(links, dir, w, u)
                            ==> discovered(self.parents@, sid).contains(u),
                    forall|k: int|
                        0 <= k < ai ==> discovered(self.parents@, sid).contains(
                            (#[trigger] adj@[k])@,
                        ),
                    disc_at_pop.subset_of(discovered(self.parents@, sid)),
                    discovered(self.parents@, sid) == disc_at_pop || disc_at_pop.len()
                        < discovered(self.parents@, sid).len(),
                    discovered(self.parents@, sid) == disc_at_pop ==> cost_sum(self.costs@)
                        <= sum_at_pop,
                    (discovered(self.parents@, sid) == disc_at_pop && cost_sum(self.costs@)
                        == sum_at_pop) ==> self.fringe@.len() <= fringe_at_pop.len(),
                decreases adj@.len() - ai,
            {
                let w = adj[ai];
                let wid = w.index();
                proof {
                    assert(vertex_ids(adj@)[ai as int] == wid);
                    assert(vertex_ids(adj@).contains(wid));
                    assert(adjacent(links, dir, vid, wid));
                }
                let edge = graph.edge(vertex, w).unwrap();
                self.visitor.visit(&Event::ExamineEdge(edge), graph);
                let c_edge = edge_cost(&edge, graph);
                let new_cost = state_cost.saturating_add(c_edge);
                if wid != sid {
                    let prior = match self.costs.get(&wid) {
                        Some(c) => Some(*c),
                        None => None,
                    };
                    let relax = match prior {
                        None => true,
                        Some(c) => c > new_cost,
                    };
                    if relax {
                        let ghost m0 = self.parents@;
                        let ghost k0 = self.costs@;
                        proof {
                            assert(m0.dom().finite());
                            assert(discovered(m0, sid).finite());
                            let rank = |x: usize| recorded_cost(k0, sid, x);
                            match prior {
                                None => {
                                    assert(!discovered(m0, sid).contains(wid));
                                    assert forall|x: usize| #[trigger] m0.contains_key(x) implies
                                        m0[x] != wid by {
                                        assert(discovered(m0, sid).contains(m0[x]));
                                    }
                                    lemma_linked_unreferenced(m0, vid, wid);
                                },
                                Some(c) => {
                                    assert(rank(wid) == c > new_cost >= state_cost >= rank(vid));
                                    if linked(m0, vid, wid) {
                                        lemma_linked_descends(m0, rank, vid, wid);
                                    }
                                    assert(!linked(m0, vid, wid));
                                },
                            }
                            lemma_acyclic_insert(m0, wid, vid);
                        }
                        self.parents.insert(wid, vid);
                        let ghost k_mid = self.costs@;
                        self.costs.insert(wid, new_cost);
                        proof {
                            assert(self.parents@ == m0.insert(wid, vid));
                            assert(self.costs@ == k0.insert(wid, new_cost));
                            assert(self.costs@.dom() =~= self.parents@.dom());
                            match prior {
                                None => {
                                    assert(discovered(self.parents@, sid) =~= discovered(
                                        m0,
                                        sid,
                                    ).insert(wid));
                                    assert(discovered(self.parents@, sid).len() == discovered(
                                        m0,
                                        sid,
                                    ).len() + 1);
                                    assert(discovered(self.parents@, sid) != disc_at_pop);
                                },
                                Some(c) => {
                                    assert(k0.contains_key(wid));
                                    assert(k0.dom().finite());
                                    lemma_cost_sum_update(k0, wid, new_cost);
                                    assert(cost_sum(self.costs@) < cost_sum(k0));
                                    assert(discovered(self.parents@, sid) =~= discovered(m0, sid));
                                },
                            }
                            // recorded costs never rise, so standing
                            // inequalities over them survive the update
                            assert forall|x: usize|
                                recorded_cost(self.costs@, sid, x) <= recorded_cost(
                                    k0,
                                    sid,
                                    x,
                                ) || x == wid by {}
                            assert(recorded_cost(self.costs@, sid, wid) <= new_cost);
                        }
                        self.visitor.visit(&Event::EdgeRelaxed(edge), graph);
                        self.visitor.visit(&Event::DiscoverVertex(w), graph);
                        let h = heuristic(&w, graph);
                        let ghost fringe0 = self.fringe@;
                        self.fringe.push(
                            State { evaluation: new_cost.saturating_add(h), cost: new_cost, vertex: wid },
                        );
                        proof {
                            assert forall|ww: usize|
                                #[trigger] discovered(self.parents@, sid).contains(ww) implies ((
                            exists|i: int|
                                0 <= i < self.fringe@.len() && (#[trigger] self.fringe@[i]).vertex
                                    == ww) || examined.contains(ww) || ww == vid) by {
                                if ww == wid {
                                    assert(self.fringe@[self.fringe@.len() - 1].vertex == ww);
                                } else {
                                    assert(discovered(m0, sid).contains(ww));
                                    if exists|i: int|
                                        0 <= i < fringe0.len() && (#[trigger] fringe0[i]).vertex
                                            == ww {
                                        let i = choose|i: int|
                                            0 <= i < fringe0.len() && (#[trigger] fringe0[i]).vertex
                                                == ww;
                                        assert(self.fringe@[i].vertex == ww);
                                    }
                                }
                            }
                        }
                    } else {
                        self.visitor.visit(&Event::EdgeNotRelaxed(edge), graph);
                    }
                }
                ai = ai + 1;
            }
            self.visitor.visit(&Event::FinishVertex(vertex), graph);
            proof {
                let disc = discovered(self.parents@, sid);
                examined = examined.insert(vid);
                assert forall|w: usize, u: usize|
                    examined.contains(w) && #[trigger] adjacent(links, dir, w, u) implies
                    disc.contains(u) by {
                    if w == vid {
                        assert(vertex_ids(adj@).contains(u));
                        let k = choose|k: int| 0 <= k < adj@.len() && (vertex_ids(adj@))[k] == u;
                        assert((adj@[k])@ == u);
                        assert(disc.contains(u));
                    }
                }
                assert forall|w: usize| #[trigger] examined.contains(w) implies exists|
                    dv: VertexDescriptor,
                |
                    dv@ == w && call_ensures(is_goal, (&dv,), false) by {
                    if w == vid {
                        assert(vertex@ == w && call_ensures(is_goal, (&vertex,), false));
                    }
                }
                vstd::set_lib::lemma_len_subset(disc_at_pop, disc);
                vstd::set_lib::lemma_len_subset(disc, universe);
                lemma_cost_sum_nonneg(self.costs@);
            }
        }
        proof {
            let disc = discovered(self.parents@, sid);
            assert(disc.contains(sid));
            assert forall|w: usize|
                reachable(links, dir, sid, w) implies exists|dv: VertexDescriptor|
                dv@ == w && call_ensures(is_goal, (&dv,), false) by {
                lemma_reachable_in_closed_set(links, dir, sid, w, disc);
                assert(examined.contains(w));
            }
        }
        None
    }
}

} // verus!
