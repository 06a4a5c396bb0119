//! Path reconstruction from a parent map, and the spec-level theory of
//! parent chains: what it means to follow parent links, when a parent map
//! is acyclic, and how the search algorithms keep it that way.

use std::collections::HashMap;

use vstd::prelude::*;

use crate::graph::{vertex_ids, FromUsize, VertexDescriptor};

verus! {

broadcast use vstd::std_specs::hash::group_hash_axioms;

/// Following parent links from `a` reaches `b` in exactly `n` steps.
pub open spec fn linked_n(m: Map<usize, usize>, a: usize, b: usize, n: nat) -> bool
    decreases n,
{
    if n == 0 {
        a == b
    } else {
        m.contains_key(a) && linked_n(m, m[a], b, (n - 1) as nat)
    }
}

/// Following parent links from `a` reaches `b` in some number of steps
/// (zero included).
pub open spec fn linked(m: Map<usize, usize>, a: usize, b: usize) -> bool {
    exists|n: nat| linked_n(m, a, b, n)
}

/// No vertex is its own strict ancestor: following parents always
/// terminates.
pub open spec fn parent_map_acyclic(m: Map<usize, usize>) -> bool {
    forall|v: usize| #[trigger] m.contains_key(v) ==> !linked(m, m[v], v)
}

/// `p` spells out a full parent chain: its head has no parent, and every
/// later element's parent is the element before it.
pub open spec fn is_parent_chain(m: Map<usize, usize>, p: Seq<usize>) -> bool {
    &&& p.len() >= 1
    &&& !m.contains_key(p.first())
    &&& forall|i: int| 0 < i < p.len() ==> m.contains_key(#[trigger] p[i]) && m[p[i]] == p[i - 1]
}

/// The vertices a search has discovered: the keys of its parent map plus
/// the start vertex (the one vertex discovered without a parent).
pub open spec fn discovered(m: Map<usize, usize>, start: usize) -> Set<usize> {
    m.dom().insert(start)
}

/// Every vertex reaches itself in zero steps.
pub proof fn lemma_linked_refl(m: Map<usize, usize>, a: usize)
    ensures
        linked(m, a, a),
{
    assert(linked_n(m, a, a, 0));
}

/// Prepending one parent step to a chain.
pub proof fn lemma_linked_step(m: Map<usize, usize>, a: usize, b: usize)
    requires
        m.contains_key(a),
        linked(m, m[a], b),
    ensures
        linked(m, a, b),
{
    let n = choose|n: nat| linked_n(m, m[a], b, n);
    assert(linked_n(m, a, b, n + 1));
}

proof fn lemma_linked_n_trans(m: Map<usize, usize>, a: usize, b: usize, c: usize, n: nat)
    requires
        linked_n(m, a, b, n),
        linked(m, b, c),
    ensures
        linked(m, a, c),
    decreases n,
{
    if n == 0 {
    } else {
        lemma_linked_n_trans(m, m[a], b, c, (n - 1) as nat);
        lemma_linked_step(m, a, c);
    }
}

/// Parent chains compose.
pub proof fn lemma_linked_trans(m: Map<usize, usize>, a: usize, b: usize, c: usize)
    requires
        linked(m, a, b),
        linked(m, b, c),
    ensures
        linked(m, a, c),
{
    let n = choose|n: nat| linked_n(m, a, b, n);
    lemma_linked_n_trans(m, a, b, c, n);
}

proof fn lemma_linked_n_descends(
    m: Map<usize, usize>,
    r: spec_fn(usize) -> int,
    a: usize,
    b: usize,
    n: nat,
)
    requires
        linked_n(m, a, b, n),
        forall|c: usize| #[trigger] m.contains_key(c) ==> r(m[c]) <= r(c),
    ensures
        r(b) <= r(a),
    decreases n,
{
    if n > 0 {
        lemma_linked_n_descends(m, r, m[a], b, (n - 1) as nat);
    }
}

/// Any quantity that never increases along parent links is no larger at the
/// end of a chain than at its start.
pub proof fn lemma_linked_descends(
    m: Map<usize, usize>,
    r: spec_fn(usize) -> int,
    a: usize,
    b: usize,
)
    requires
        linked(m, a, b),
        forall|c: usize| #[trigger] m.contains_key(c) ==> r(m[c]) <= r(c),
    ensures
        r(b) <= r(a),
{
    let n = choose|n: nat| linked_n(m, a, b, n);
    lemma_linked_n_descends(m, r, a, b, n);
}

/// A vertex that is no key, no parent value, and not `a` itself is not
/// reachable from `a` by parent links.
proof fn lemma_linked_n_unreferenced(m: Map<usize, usize>, a: usize, c: usize, n: nat)
    requires
        a != c,
        !m.contains_key(c),
        forall|x: usize| #[trigger] m.contains_key(x) ==> m[x] != c,
    ensures
        !linked_n(m, a, c, n),
    decreases n,
{
    if n > 0 && m.contains_key(a) {
        lemma_linked_n_unreferenced(m, m[a], c, (n - 1) as nat);
    }
}

/// As `lemma_linked_n_unreferenced`, for chains of any length.
pub proof fn lemma_linked_unreferenced(m: Map<usize, usize>, a: usize, c: usize)
    requires
        a != c,
        !m.contains_key(c),
        forall|x: usize| #[trigger] m.contains_key(x) ==> m[x] != c,
    ensures
        !linked(m, a, c),
{
    assert forall|n: nat| !linked_n(m, a, c, n) by {
        lemma_linked_n_unreferenced(m, a, c, n);
    }
}

/// Decompose a chain of the updated map `m.insert(c, v)`: either it already
/// existed in `m`, or it runs in `m` up to `c` and continues from `c` in the
/// updated map.
proof fn lemma_linked_n_insert(
    m: Map<usize, usize>,
    c: usize,
    v: usize,
    a: usize,
    b: usize,
    n: nat,
)
    requires
        linked_n(m.insert(c, v), a, b, n),
    ensures
        linked(m, a, b) || (linked(m, a, c) && linked(m.insert(c, v), c, b)),
    decreases n,
{
    let m1 = m.insert(c, v);
    if n == 0 {
        lemma_linked_refl(m, a);
    } else {
        if a == c {
            lemma_linked_refl(m, a);
            assert(linked_n(m1, c, b, n));
        } else {
            lemma_linked_n_insert(m, c, v, m[a], b, (n - 1) as nat);
            if linked(m, m[a], b) {
                lemma_linked_step(m, a, b);
            } else {
                lemma_linked_step(m, a, c);
            }
        }
    }
}

/// Redirecting (or newly setting) the parent of `c` to `v` keeps the map
/// acyclic, provided no parent chain leads from `v` back to `c`.
pub proof fn lemma_acyclic_insert(m: Map<usize, usize>, c: usize, v: usize)
    requires
        parent_map_acyclic(m),
        !linked(m, v, c),
    ensures
        parent_map_acyclic(m.insert(c, v)),
{
    let m1 = m.insert(c, v);
    assert forall|x: usize| #[trigger] m1.contains_key(x) implies !linked(m1, m1[x], x) by {
        if linked(m1, m1[x], x) {
            let n = choose|n: nat| linked_n(m1, m1[x], x, n);
            if x == c {
                // a cycle through c would give a chain from v back to c in m
                lemma_linked_n_insert(m, c, v, v, c, n);
                assert(false);
            } else {
                lemma_linked_n_insert(m, c, v, m[x], x, n);
                if linked(m, m[x], x) {
                    assert(false);
                } else {
                    // the chain detours through c: m[x] ~> c, then c -> v ~> x
                    assert(linked(m, m[x], c));
                    let k = choose|k: nat| linked_n(m1, c, x, k);
                    assert(k != 0);
                    assert(linked_n(m1, v, x, (k - 1) as nat));
                    lemma_linked_n_insert(m, c, v, v, x, (k - 1) as nat);
                    if linked(m, v, x) {
                        // then v ~> x -> m[x] ~> c, a chain from v to c in m
                        lemma_linked_step(m, x, c);
                        lemma_linked_trans(m, v, x, c);
                        assert(false);
                    } else {
                        assert(linked(m, v, c));
                        assert(false);
                    }
                }
            }
        }
    }
}

/// The ancestors of `a` that are themselves keys of the parent map.
pub open spec fn key_ancestors(m: Map<usize, usize>, a: usize) -> Set<usize> {
    Set::new(|w: usize| m.contains_key(w) && linked(m, a, w))
}

/// In an acyclic parent map with finitely many keys, one parent step
/// strictly shrinks the set of key ancestors: the termination measure for
/// walking a chain.
pub proof fn lemma_key_ancestors_step(m: Map<usize, usize>, a: usize)
    requires
        parent_map_acyclic(m),
        m.dom().finite(),
        m.contains_key(a),
    ensures
        key_ancestors(m, m[a]).len() < key_ancestors(m, a).len(),
{
    let before = key_ancestors(m, a);
    let after = key_ancestors(m, m[a]);
    assert(before.subset_of(m.dom()));
    assert(after.subset_of(m.dom()));
    assert(before =~= m.dom().intersect(Set::new(|w: usize| linked(m, a, w))));
    assert(after =~= m.dom().intersect(Set::new(|w: usize| linked(m, m[a], w))));
    vstd::set::axiom_set_intersect_finite(
        m.dom(),
        Set::new(|w: usize| linked(m, a, w)),
    );
    vstd::set::axiom_set_intersect_finite(
        m.dom(),
        Set::new(|w: usize| linked(m, m[a], w)),
    );
    lemma_linked_refl(m, a);
    assert(before.contains(a));
    assert(!linked(m, m[a], a));
    assert forall|w: usize| #[trigger] after.contains(w) implies before.remove(a).contains(w) by {
        lemma_linked_step(m, a, w);
    }
    vstd::set_lib::lemma_len_subset(after, before.remove(a));
    vstd::set::axiom_set_remove_len(before, a);
}

/// Turn a parent map plus a goal vertex into the route from the chain's
/// start to the goal: repeatedly look parents up starting at the goal, then
/// reverse. The parent map must be acyclic (a malformed map would make the
/// walk endless); the search algorithms maintain that invariant.
pub fn reverse_path(parents: &HashMap<usize, usize>, goal: VertexDescriptor) -> (r: Vec<
    VertexDescriptor,
>)
    requires
        parent_map_acyclic(parents@),
    ensures
        is_parent_chain(parents@, vertex_ids(r@)),
        vertex_ids(r@).last() == goal@,
{
    let mut chain: Vec<usize> = Vec::new();
    let mut cur: usize = goal.index();
    chain.push(cur);
    loop
        invariant
            parent_map_acyclic(parents@),
            chain@.len() >= 1,
            chain@.first() == goal@,
            cur == chain@.last(),
            forall|i: int|
                0 <= i < chain@.len() - 1 ==> parents@.contains_key(#[trigger] chain@[i])
                    && parents@[chain@[i]] == chain@[i + 1],
        ensures
            chain@.len() >= 1,
            chain@.first() == goal@,
            !parents@.contains_key(chain@.last()),
            forall|i: int|
                0 <= i < chain@.len() - 1 ==> parents@.contains_key(#[trigger] chain@[i])
                    && parents@[chain@[i]] == chain@[i + 1],
        decreases key_ancestors(parents@, cur).len() + 1,
    {
        let next = match parents.get(&cur) {
            Some(p) => Some(*p),
            None => None,
        };
        match next {
            Some(p) => {
                proof {
                    lemma_key_ancestors_step(parents@, cur);
                }
                chain.push(p);
                cur = p;
            },
            None => {
                break ;
            },
        }
    }
    let n = chain.len();
    let mut r: Vec<VertexDescriptor> = Vec::new();
    let mut j: usize = n;
    while j > 0
        invariant
            n == chain@.len(),
            j <= n,
            r@.len() == n - j,
            forall|a: int| 0 <= a < r@.len() ==> (#[trigger] r@[a])@ == chain@[n - 1 - a],
        decreases j,
    {
        j = j - 1;
        r.push(VertexDescriptor::from_usize(chain[j]));
    }
    proof {
        let ids = vertex_ids(r@);
        assert(ids.len() == n);
        assert(forall|a: int| 0 <= a < n ==> ids[a] == chain@[n - 1 - a]);
        assert(ids.first() == chain@.last());
        assert(ids.last() == chain@.first());
        assert forall|i: int| 0 < i < n implies parents@.contains_key(#[trigger] ids[i])
            && parents@[ids[i]] == ids[i - 1] by {
            assert(ids[i] == chain@[n - 1 - i]);
            assert(ids[i - 1] == chain@[n - i]);
            assert(parents@.contains_key(chain@[n - 1 - i]));
        }
    }
    r
}

} // verus!
