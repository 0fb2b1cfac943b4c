//! Connectivity: which vertices a walk can reach when one edge is left out.

use crate::geometry::{Edge, Vertex};
use crate::postman::lemmas::{
    lemma_closed_set_holds_walk, lemma_id_set_finite, lemma_reachable_self,
    lemma_reachable_step, lemma_where_identity_lives,
};
use crate::postman::model::{
    adjacent, connected, Graph, id_set, is_walk, joins, listed, reachable, row, rows, well_formed,
};
use crate::postman::validate::is_well_formed;
use crate::postman::PostmanError;
use crate::prelude::AdjList;
use std::collections::BTreeSet;
use vstd::prelude::*;

verus! {

/// Every neighbour of a visited vertex has been visited, unless the vertex
/// still waits on the stack or is the one at hand.
spec fn closed_but(
    g: Graph,
    skip: Set<usize>,
    visited: Set<usize>,
    stack: Seq<Vertex>,
    hand: Option<usize>,
) -> bool {
    forall|v: usize, w: usize|
        visited.contains(v) && #[trigger] adjacent(g, skip, v, w) ==> visited.contains(w) || listed(
            stack,
            v,
        ) || hand == Some(v)
}

/// The identities of the vertices that can be reached from `source` by walks
/// that do not use `skip`. The traversal is depth first, keeps the vertices
/// that wait in an explicit stack, and enters no vertex twice.
pub(crate) fn dfs(source: Vertex, skip: &Edge, vertices: &Vec<Vertex>, map: &AdjList) -> (visited:
    BTreeSet<usize>)
    requires
        well_formed(vertices@, rows(map)),
        listed(vertices@, source.id()),
    ensures
        forall|v: usize|
            visited@.contains(v) <==> reachable(rows(map), set![skip.id()], source.id(), v),
{
    let ghost g = rows(map);
    let ghost sk = set![skip.id()];
    let ghost root = source.id();
    let ghost universe = id_set(vertices@);
    let mut visited: BTreeSet<usize> = BTreeSet::new();
    let mut stack: Vec<Vertex> = Vec::new();
    visited.insert(source.id());
    stack.push(source);
    proof {
        lemma_id_set_finite(vertices@);
        lemma_reachable_self(g, sk, root);
        assert(stack@[0].id() == root);
    }
    while stack.len() > 0
        invariant
            g == rows(map),
            sk == set![skip.id()],
            universe == id_set(vertices@),
            universe.finite(),
            well_formed(vertices@, g),
            visited@.contains(root),
            visited@.subset_of(universe),
            forall|v: usize| visited@.contains(v) ==> reachable(g, sk, root, v),
            forall|i: int| 0 <= i < stack@.len() ==> visited@.contains((#[trigger] stack@[i]).id()),
            closed_but(g, sk, visited@, stack@, None),
        decreases universe.len() - visited@.len(), stack@.len(),
    {
        let ghost visited0 = visited@;
        let ghost stack0 = stack@;
        let v = stack.pop().unwrap();
        let k: usize = v.id();
        proof {
            vstd::set_lib::lemma_len_subset(visited@, universe);
            assert(visited@.contains(stack0[stack0.len() - 1].id()));
            assert forall|v2: usize, w: usize|
                visited@.contains(v2) && #[trigger] adjacent(g, sk, v2, w) implies visited@.contains(
                w,
            ) || listed(stack@, v2) || Some(k) == Some(v2) by {
                if listed(stack0, v2) && v2 != k {
                    let i = choose|i: int| 0 <= i < stack0.len() && (#[trigger] stack0[i]).id() == v2;
                    assert(stack@[i].id() == v2);
                }
            }
        }
        match map.get(&k) {
            None => {
                proof {
                    assert(row(g, k).len() == 0);
                    assert forall|w: usize| !adjacent(g, sk, k, w) by {}
                }
            },
            Some(edges) => {
                assert(row(g, k) == edges@);
                let mut i: usize = 0;
                while i < edges.len()
                    invariant
                        i <= edges.len(),
                        g == rows(map),
                        sk == set![skip.id()],
                        universe == id_set(vertices@),
                        universe.finite(),
                        well_formed(vertices@, g),
                        k == v.id(),
                        row(g, k) == edges@,
                        visited@.contains(root),
                        visited@.contains(k),
                        visited@.subset_of(universe),
                        visited0.subset_of(visited@),
                        visited@.len() >= visited0.len(),
                        visited@.len() == visited0.len() ==> stack@.len() == stack0.len() - 1,
                        forall|v2: usize| visited@.contains(v2) ==> reachable(g, sk, root, v2),
                        forall|j: int|
                            0 <= j < stack@.len() ==> visited@.contains((#[trigger] stack@[j]).id()),
                        closed_but(g, sk, visited@, stack@, Some(k)),
                        forall|j: int|
                            0 <= j < i && (#[trigger] edges@[j]).touches(k) && !sk.contains(
                                edges@[j].id(),
                            ) ==> visited@.contains(edges@[j].across(k).id()),
                    decreases edges.len() - i,
                {
                    let e = &edges[i];
                    if e.id() != skip.id() {
                        match e.other_vertex(v) {
                            Some(w) => {
                                let wk: usize = w.id();
                                if !visited.contains(&wk) {
                                    let ghost before = visited@;
                                    let ghost stack1 = stack@;
                                    proof {
                                        lemma_where_identity_lives(vertices@, g, k, i as int, wk);
                                        assert(g.contains_key(wk));
                                        assert(listed(vertices@, wk));
                                        assert(joins(row(g, k)[i as int], k, wk));
                                        assert(adjacent(g, sk, k, wk));
                                        lemma_reachable_step(g, sk, root, k, wk);
                                        vstd::set_lib::lemma_len_subset(before, universe);
                                    }
                                    visited.insert(wk);
                                    stack.push(w);
                                    proof {
                                        assert(visited@.subset_of(universe));
                                        vstd::set_lib::lemma_len_subset(visited@, universe);
                                        assert forall|j: int| 0 <= j < stack@.len() implies visited@.contains(
                                            (#[trigger] stack@[j]).id(),
                                        ) by {
                                            if j < stack1.len() {
                                                assert(stack@[j] == stack1[j]);
                                            }
                                        }
                                        assert forall|v2: usize, w2: usize|
                                            visited@.contains(v2) && #[trigger] adjacent(
                                                g,
                                                sk,
                                                v2,
                                                w2,
                                            ) implies visited@.contains(w2) || listed(stack@, v2)
                                            || Some(k) == Some(v2) by {
                                            if v2 == wk {
                                                assert(stack@[stack1.len() as int].id() == wk);
                                            } else if listed(stack1, v2) {
                                                let j = choose|j: int|
                                                    0 <= j < stack1.len() && (
                                                    #[trigger] stack1[j]).id() == v2;
                                                assert(stack@[j].id() == v2);
                                            }
                                        }
                                    }
                                }
                            },
                            None => {},
                        }
                    }
                    proof {
                        lemma_where_identity_lives(vertices@, g, k, i as int, k);
                    }
                    i += 1;
                }
                proof {
                    assert forall|w: usize| adjacent(g, sk, k, w) implies visited@.contains(w) by {
                        let j = choose|j: int|
                            0 <= j < row(g, k).len() && joins(#[trigger] row(g, k)[j], k, w)
                                && !sk.contains(row(g, k)[j].id());
                        assert(joins(edges@[j], k, w));
                    }
                }
            },
        }
        proof {
            vstd::set_lib::lemma_len_subset(visited@, universe);
            assert(closed_but(g, sk, visited@, stack@, None));
        }
    }
    proof {
        assert forall|v: usize| reachable(g, sk, root, v) implies visited@.contains(v) by {
            let p = choose|p: Seq<usize>| #[trigger] is_walk(g, sk, p) && p[0] == root && p.last() == v;
            assert forall|a: usize, b: usize|
                visited@.contains(a) && #[trigger] adjacent(g, sk, a, b) implies visited@.contains(
                b,
            ) by {
                assert(!listed(stack@, a));
            }
            lemma_closed_set_holds_walk(g, sk, visited@, p);
        }
    }
    visited
}

/// Whether the graph stays connected when the edge `skip` is taken away: a
/// depth-first traversal from the first listed vertex that never uses `skip`
/// must reach every listed vertex. `skip` is a bridge exactly when the graph
/// is connected only with it.
pub fn graph_is_connected(skip: &Edge, verts: Vec<Vertex>, map: &AdjList) -> (r: Result<
    bool,
    PostmanError,
>)
    ensures
        match r {
            Ok(b) => well_formed(verts@, rows(map)) && b == connected(
                verts@,
                rows(map),
                set![skip.id()],
            ),
            Err(e) => e == PostmanError::MalformedAdjacency && !well_formed(verts@, rows(map)),
        },
{
    if !is_well_formed(&verts, map) {
        return Err(PostmanError::MalformedAdjacency);
    }
    if verts.len() == 0 {
        return Ok(true);
    }
    let visited = dfs(verts[0], skip, &verts, map);
    let mut i: usize = 0;
    while i < verts.len()
        invariant
            i <= verts.len(),
            verts@.len() > 0,
            well_formed(verts@, rows(map)),
            forall|v: usize|
                visited@.contains(v) <==> reachable(
                    rows(map),
                    set![skip.id()],
                    verts@[0].id(),
                    v,
                ),
            forall|j: int| 0 <= j < i ==> visited@.contains((#[trigger] verts@[j]).id()),
        decreases verts.len() - i,
    {
        let k: usize = verts[i].id();
        if !visited.contains(&k) {
            assert(!reachable(rows(map), set![skip.id()], verts@[0].id(), verts@[i as int].id()));
            return Ok(false);
        }
        i += 1;
    }
    Ok(true)
}

} // verus!
