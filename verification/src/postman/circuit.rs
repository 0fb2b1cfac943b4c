//! The Eulerian circuit builder: a closed walk over every edge by
//! Hierholzer's method.

use crate::geometry::{Edge, Vertex};
use crate::postman::degree::vertex_is_odd;
use crate::postman::lemmas::{
    lemma_closed_set_holds_walk, lemma_mark_absent, lemma_mark_present, lemma_marked_all,
    lemma_marked_none, lemma_reachable_self, lemma_reachable_step, lemma_same_ids_same_length,
    lemma_where_identity_lives,
};
use crate::postman::model::{
    adjacent, all_even, connected, degree, distinct_edges, Graph, holds, in_row, is_odd, is_walk,
    joins, knows, listed, marked, no_edges, reachable, row, row_sound, rows, same_ends,
    well_formed,
};
use crate::postman::plan::{edge_count, every_edge, lemma_every_edge_once};
use crate::postman::validate::is_well_formed;
use crate::postman::PostmanError;
use crate::prelude::AdjList;
use std::collections::{BTreeMap, BTreeSet};
use vstd::prelude::*;

verus! {

/// A walk through a graph.
pub struct Route {
    /// The vertices in the order in which the walk visits them.
    pub vertices: Vec<Vertex>,
    /// The edges that the walk traverses: `edges[i]` leads from `vertices[i]`
    /// to `vertices[i + 1]`.
    pub edges: Vec<Edge>,
}

/// The edge `e` stands in the row of `u` and leads from there to `w`.
pub open spec fn leads(g: Graph, u: usize, e: Edge, w: Vertex) -> bool {
    e.touches(u) && w == e.across(u) && in_row(g, u, e)
}

/// Each edge leads from its vertex to the next vertex.
pub open spec fn is_chain(g: Graph, vs: Seq<Vertex>, es: Seq<Edge>) -> bool {
    &&& vs.len() == es.len() + 1
    &&& forall|i: int| 0 <= i < es.len() ==> leads(g, vs[i].id(), #[trigger] es[i], vs[i + 1])
}

/// `vs` and `es` are an Eulerian circuit of the graph: a closed walk from the
/// first listed vertex that uses every edge exactly once. Of a graph without
/// edges it is the empty route.
pub open spec fn is_euler_circuit(
    verts: Seq<Vertex>,
    g: Graph,
    vs: Seq<Vertex>,
    es: Seq<Edge>,
) -> bool {
    if no_edges(g) {
        vs.len() == 0 && es.len() == 0
    } else {
        &&& is_chain(g, vs, es)
        &&& verts.len() > 0
        &&& vs[0] == verts[0]
        &&& vs.last().id() == vs[0].id()
        &&& distinct_edges(es)
        &&& forall|id: usize| knows(g, id) ==> holds(es, id)
    }
}

/// Every edge in the row of `k` is marked.
spec fn spent(g: Graph, used: Set<usize>, k: usize) -> bool {
    marked(row(g, k), used) == row(g, k).len()
}

/// The number of unmarked edges at `x` is odd exactly when `x` is one of
/// `top` and `anchor`, but not both.
spec fn parity(
    g: Graph,
    used: Set<usize>,
    x: usize,
    top: usize,
    anchor: usize,
) -> bool {
    (row(g, x).len() - marked(row(g, x), used)) % 2 == (if x == top {
        1int
    } else {
        0int
    } + if x == anchor {
        1int
    } else {
        0int
    }) % 2
}

/// The identity of the vertex that was left after `c[j]`, where `anchor` is
/// the one that was left last.
spec fn next_id(c: Seq<Vertex>, anchor: usize, j: int) -> usize {
    if j + 1 < c.len() {
        c[j + 1].id()
    } else {
        anchor
    }
}

/// The unmarked edges in the rows of the first `n` listed vertices.
spec fn total_unused(
    verts: Seq<Vertex>,
    g: Graph,
    used: Set<usize>,
    n: nat,
) -> nat
    decreases n,
{
    if n == 0 {
        0
    } else {
        total_unused(verts, g, used, (n - 1) as nat) + (row(g, verts[n - 1].id()).len() - marked(
            row(g, verts[n - 1].id()),
            used,
        )) as nat
    }
}

/// The state of the walk while it runs: `sv` and `se` are the trail from the
/// start to where the walk stands; `c` and `f` are the vertices that the walk
/// has left for good with the edges by which it left them.
spec fn running(
    verts: Seq<Vertex>,
    g: Graph,
    sv: Seq<Vertex>,
    se: Seq<Edge>,
    c: Seq<Vertex>,
    f: Seq<Edge>,
    used: Set<usize>,
    seen: Set<usize>,
    anchor: usize,
) -> bool {
    &&& verts.len() > 0
    &&& is_chain(g, sv, se)
    &&& sv[0] == verts[0]
    &&& c.len() == f.len()
    &&& forall|j: int| 0 <= j < f.len() ==> leads(g, next_id(c, anchor, j), #[trigger] f[j], c[j])
    &&& c.len() > 0 ==> c[0].id() == verts[0].id()
    &&& c.len() == 0 ==> anchor == verts[0].id()
    &&& distinct_edges(se)
    &&& distinct_edges(f)
    &&& forall|i: int, j: int|
        0 <= i < se.len() && 0 <= j < f.len() ==> (#[trigger] se[i]).id() != (#[trigger] f[j]).id()
    &&& forall|x: usize| used.contains(x) <==> holds(se, x) || holds(f, x)
    &&& forall|x: usize| parity(g, used, x, sv.last().id(), anchor)
    &&& forall|j: int| 0 <= j < c.len() ==> spent(g, used, (#[trigger] c[j]).id())
    &&& forall|x: usize| seen.contains(x) <==> listed(sv, x) || listed(c, x)
    &&& forall|x: usize| seen.contains(x) ==> reachable(g, Set::empty(), verts[0].id(), x)
}

/// What the walk has found when it ends: `c` holds the vertices in the order
/// in which they were left, so the route is `c` read backwards.
spec fn finished(
    verts: Seq<Vertex>,
    g: Graph,
    c: Seq<Vertex>,
    f: Seq<Edge>,
    seen: Set<usize>,
) -> bool {
    &&& verts.len() > 0
    &&& c.len() == f.len() + 1
    &&& forall|j: int| 0 <= j < f.len() ==> leads(g, c[j + 1].id(), #[trigger] f[j], c[j])
    &&& c.last() == verts[0]
    &&& c[0].id() == verts[0].id()
    &&& distinct_edges(f)
    &&& forall|j: int, i: int|
        0 <= j < c.len() && 0 <= i < row(g, c[j].id()).len() ==> holds(
            f,
            (#[trigger] row(g, c[j].id())[i]).id(),
        )
    &&& forall|x: usize| seen.contains(x) <==> listed(c, x)
    &&& forall|x: usize| seen.contains(x) ==> reachable(g, Set::empty(), verts[0].id(), x)
    &&& forall|v: usize, w: usize|
        seen.contains(v) && #[trigger] adjacent(g, Set::empty(), v, w) ==> seen.contains(w)
}

proof fn lemma_mark_grows(s: Seq<Edge>, marks: Set<usize>, x: usize)
    ensures
        marked(s, marks) <= marked(s, marks.insert(x)) <= s.len(),
    decreases s.len(),
{
    if s.len() > 0 {
        lemma_mark_grows(s.drop_last(), marks, x);
    }
}

proof fn lemma_total_unused_drops(
    verts: Seq<Vertex>,
    g: Graph,
    used: Set<usize>,
    x: usize,
    j0: int,
    n: nat,
)
    requires
        n <= verts.len(),
        0 <= j0 < n ==> marked(row(g, verts[j0].id()), used) < marked(
            row(g, verts[j0].id()),
            used.insert(x),
        ),
    ensures
        total_unused(verts, g, used.insert(x), n) <= total_unused(verts, g, used, n),
        0 <= j0 < n ==> total_unused(verts, g, used.insert(x), n) < total_unused(verts, g, used, n),
    decreases n,
{
    if n > 0 {
        lemma_total_unused_drops(verts, g, used, x, j0, (n - 1) as nat);
        lemma_mark_grows(row(g, verts[n - 1].id()), used, x);
    }
}

/// The walk goes on along an unmarked edge at the vertex where it stands.
proof fn lemma_push(
    verts: Seq<Vertex>,
    g: Graph,
    sv: Seq<Vertex>,
    se: Seq<Edge>,
    c: Seq<Vertex>,
    f: Seq<Edge>,
    used: Set<usize>,
    seen: Set<usize>,
    anchor: usize,
    i: int,
)
    requires
        well_formed(verts, g),
        running(verts, g, sv, se, c, f, used, seen, anchor),
        0 <= i < row(g, sv.last().id()).len(),
        !used.contains(row(g, sv.last().id())[i].id()),
    ensures
        ({
            let k = sv.last().id();
            let e = row(g, k)[i];
            let w = e.across(k);
            &&& e.touches(k)
            &&& running(
                verts,
                g,
                sv.push(w),
                se.push(e),
                c,
                f,
                used.insert(e.id()),
                seen.insert(w.id()),
                anchor,
            )
            &&& total_unused(verts, g, used.insert(e.id()), verts.len()) < total_unused(
                verts,
                g,
                used,
                verts.len(),
            )
        }),
{
    let k = sv.last().id();
    let e = row(g, k)[i];
    let w = e.across(k);
    let sv2 = sv.push(w);
    let se2 = se.push(e);
    let used2 = used.insert(e.id());
    let seen2 = seen.insert(w.id());
    lemma_where_identity_lives(verts, g, k, i, k);
    assert(in_row(g, k, e));
    assert(leads(g, k, e, w));
    assert(is_chain(g, sv2, se2)) by {
        assert forall|j: int| 0 <= j < se2.len() implies leads(
            g,
            sv2[j].id(),
            #[trigger] se2[j],
            sv2[j + 1],
        ) by {
            if j < se.len() {
                assert(leads(g, sv[j].id(), se[j], sv[j + 1]));
            }
        }
    }
    assert(!holds(se, e.id()) && !holds(f, e.id()));
    assert(distinct_edges(se2)) by {
        assert forall|a: int, b: int| 0 <= a < b < se2.len() implies se2[a].id() != se2[b].id() by {
            if b == se.len() {
                assert(se[a].id() != e.id());
            } else {
                assert(se[a].id() != se[b].id());
            }
        }
    }
    assert forall|a: int, b: int| 0 <= a < se2.len() && 0 <= b < f.len() implies (
    #[trigger] se2[a]).id() != (#[trigger] f[b]).id() by {
        if a < se.len() {
            assert(se[a].id() != f[b].id());
        } else {
            assert(f[b].id() != e.id());
        }
    }
    assert forall|x: usize| used2.contains(x) <==> holds(se2, x) || holds(f, x) by {
        if holds(se2, x) {
            let a = choose|a: int| 0 <= a < se2.len() && (#[trigger] se2[a]).id() == x;
            if a < se.len() {
                assert(se[a].id() == x);
            }
        }
        if holds(se, x) {
            let a = choose|a: int| 0 <= a < se.len() && (#[trigger] se[a]).id() == x;
            assert(se2[a].id() == x);
        }
        if x == e.id() {
            assert(se2[se.len() as int].id() == x);
        }
    }
    assert forall|x: usize| parity(g, used2, x, sv2.last().id(), anchor) by {
        lemma_where_identity_lives(verts, g, k, i, x);
        assert(row_sound(g, x));
        assert(parity(g, used, x, k, anchor));
        lemma_marked_all(row(g, x), used2);
        if e.touches(x) {
            lemma_mark_present(row(g, x), used, e.id());
        } else {
            lemma_mark_absent(row(g, x), used, e.id());
        }
    }
    assert forall|j: int| 0 <= j < c.len() implies spent(g, used2, (#[trigger] c[j]).id()) by {
        let x = c[j].id();
        assert(spent(g, used, x));
        lemma_marked_all(row(g, x), used);
        if holds(row(g, x), e.id()) {
            let a = choose|a: int| 0 <= a < row(g, x).len() && (#[trigger] row(g, x)[a]).id() == e.id();
            assert(used.contains(row(g, x)[a].id()));
        }
        lemma_mark_absent(row(g, x), used, e.id());
    }
    assert forall|x: usize| seen2.contains(x) <==> listed(sv2, x) || listed(c, x) by {
        if listed(sv2, x) {
            let a = choose|a: int| 0 <= a < sv2.len() && (#[trigger] sv2[a]).id() == x;
            if a < sv.len() {
                assert(sv[a].id() == x);
            }
        }
        if listed(sv, x) {
            let a = choose|a: int| 0 <= a < sv.len() && (#[trigger] sv[a]).id() == x;
            assert(sv2[a].id() == x);
        }
        if x == w.id() {
            assert(sv2[sv.len() as int].id() == x);
        }
    }
    assert(listed(sv, k)) by {
        assert(sv[sv.len() - 1].id() == k);
    }
    assert forall|x: usize| seen2.contains(x) implies reachable(
        g,
        Set::empty(),
        verts[0].id(),
        x,
    ) by {
        if x == w.id() {
            assert(joins(row(g, k)[i], k, w.id()));
            assert(adjacent(g, Set::empty(), k, w.id()));
            lemma_reachable_step(g, Set::empty(), verts[0].id(), k, w.id());
        }
    }
    assert(g.contains_key(k));
    assert(listed(verts, k));
    let j0 = choose|j0: int| 0 <= j0 < verts.len() && (#[trigger] verts[j0]).id() == k;
    assert(row_sound(g, k));
    assert(holds(row(g, k), e.id()));
    lemma_mark_present(row(g, k), used, e.id());
    lemma_total_unused_drops(verts, g, used, e.id(), j0, verts.len());
}

/// The walk stands where no unmarked edge is left and steps back along the
/// trail.
proof fn lemma_pop(
    verts: Seq<Vertex>,
    g: Graph,
    sv: Seq<Vertex>,
    se: Seq<Edge>,
    c: Seq<Vertex>,
    f: Seq<Edge>,
    used: Set<usize>,
    seen: Set<usize>,
    anchor: usize,
)
    requires
        well_formed(verts, g),
        running(verts, g, sv, se, c, f, used, seen, anchor),
        spent(g, used, sv.last().id()),
        se.len() > 0,
    ensures
        running(
            verts,
            g,
            sv.drop_last(),
            se.drop_last(),
            c.push(sv.last()),
            f.push(se.last()),
            used,
            seen,
            sv[sv.len() - 2].id(),
        ),
{
    let top = sv.last();
    let k = top.id();
    let e = se.last();
    let sv2 = sv.drop_last();
    let se2 = se.drop_last();
    let c2 = c.push(top);
    let f2 = f.push(e);
    let anchor2 = sv[sv.len() - 2].id();
    assert(parity(g, used, k, k, anchor));
    assert(k == anchor);
    assert(leads(g, sv[se.len() - 1].id(), se[se.len() - 1], sv[se.len() - 1 + 1]));
    assert(is_chain(g, sv2, se2)) by {
        assert forall|j: int| 0 <= j < se2.len() implies leads(
            g,
            sv2[j].id(),
            #[trigger] se2[j],
            sv2[j + 1],
        ) by {
            assert(leads(g, sv[j].id(), se[j], sv[j + 1]));
        }
    }
    assert forall|j: int| 0 <= j < f2.len() implies leads(
        g,
        next_id(c2, anchor2, j),
        #[trigger] f2[j],
        c2[j],
    ) by {
        if j < f.len() {
            assert(leads(g, next_id(c, anchor, j), f[j], c[j]));
            assert(next_id(c2, anchor2, j) == next_id(c, anchor, j));
        }
    }
    assert(distinct_edges(se2)) by {
        assert forall|a: int, b: int| 0 <= a < b < se2.len() implies se2[a].id() != se2[b].id() by {
            assert(se[a].id() != se[b].id());
        }
    }
    assert(distinct_edges(f2)) by {
        assert forall|a: int, b: int| 0 <= a < b < f2.len() implies f2[a].id() != f2[b].id() by {
            if b == f.len() {
                assert(se[se.len() - 1].id() != f[a].id());
            } else {
                assert(f[a].id() != f[b].id());
            }
        }
    }
    assert forall|a: int, b: int| 0 <= a < se2.len() && 0 <= b < f2.len() implies (
    #[trigger] se2[a]).id() != (#[trigger] f2[b]).id() by {
        if b < f.len() {
            assert(se[a].id() != f[b].id());
        } else {
            assert(se[a].id() != se[se.len() - 1].id());
        }
    }
    assert forall|x: usize| used.contains(x) <==> holds(se2, x) || holds(f2, x) by {
        if holds(se2, x) {
            let a = choose|a: int| 0 <= a < se2.len() && (#[trigger] se2[a]).id() == x;
            assert(se[a].id() == x);
        }
        if holds(f2, x) {
            let a = choose|a: int| 0 <= a < f2.len() && (#[trigger] f2[a]).id() == x;
            if a < f.len() {
                assert(f[a].id() == x);
            } else {
                assert(se[se.len() - 1].id() == x);
            }
        }
        if holds(se, x) {
            let a = choose|a: int| 0 <= a < se.len() && (#[trigger] se[a]).id() == x;
            if a < se2.len() {
                assert(se2[a].id() == x);
            } else {
                assert(f2[f.len() as int].id() == x);
            }
        }
        if holds(f, x) {
            let a = choose|a: int| 0 <= a < f.len() && (#[trigger] f[a]).id() == x;
            assert(f2[a].id() == x);
        }
    }
    assert forall|x: usize| parity(g, used, x, sv2.last().id(), anchor2) by {
        assert(parity(g, used, x, k, anchor));
    }
    assert forall|j: int| 0 <= j < c2.len() implies spent(g, used, (#[trigger] c2[j]).id()) by {
        if j < c.len() {
            assert(spent(g, used, c[j].id()));
        }
    }
    assert forall|x: usize| seen.contains(x) <==> listed(sv2, x) || listed(c2, x) by {
        if listed(sv2, x) {
            let a = choose|a: int| 0 <= a < sv2.len() && (#[trigger] sv2[a]).id() == x;
            assert(sv[a].id() == x);
        }
        if listed(c2, x) {
            let a = choose|a: int| 0 <= a < c2.len() && (#[trigger] c2[a]).id() == x;
            if a < c.len() {
                assert(c[a].id() == x);
            } else {
                assert(sv[sv.len() - 1].id() == x);
            }
        }
        if listed(sv, x) {
            let a = choose|a: int| 0 <= a < sv.len() && (#[trigger] sv[a]).id() == x;
            if a < sv2.len() {
                assert(sv2[a].id() == x);
            } else {
                assert(c2[c.len() as int].id() == x);
            }
        }
        if listed(c, x) {
            let a = choose|a: int| 0 <= a < c.len() && (#[trigger] c[a]).id() == x;
            assert(c2[a].id() == x);
        }
    }
}

/// The walk stands at the start with no unmarked edge left and ends.
proof fn lemma_finish(
    verts: Seq<Vertex>,
    g: Graph,
    sv: Seq<Vertex>,
    se: Seq<Edge>,
    c: Seq<Vertex>,
    f: Seq<Edge>,
    used: Set<usize>,
    seen: Set<usize>,
    anchor: usize,
)
    requires
        well_formed(verts, g),
        running(verts, g, sv, se, c, f, used, seen, anchor),
        spent(g, used, sv.last().id()),
        se.len() == 0,
    ensures
        finished(verts, g, c.push(sv.last()), f, seen),
{
    let top = sv.last();
    let k = top.id();
    let c2 = c.push(top);
    assert(parity(g, used, k, k, anchor));
    assert(k == anchor);
    assert forall|j: int| 0 <= j < f.len() implies leads(
        g,
        c2[j + 1].id(),
        #[trigger] f[j],
        c2[j],
    ) by {
        assert(leads(g, next_id(c, anchor, j), f[j], c[j]));
    }
    assert forall|j: int| 0 <= j < c2.len() implies spent(g, used, (#[trigger] c2[j]).id()) by {
        if j < c.len() {
            assert(spent(g, used, c[j].id()));
        }
    }
    assert forall|j: int, i: int|
        0 <= j < c2.len() && 0 <= i < row(g, c2[j].id()).len() implies holds(
        f,
        (#[trigger] row(g, c2[j].id())[i]).id(),
    ) by {
        assert(spent(g, used, c2[j].id()));
        lemma_marked_all(row(g, c2[j].id()), used);
        assert(used.contains(row(g, c2[j].id())[i].id()));
        assert(!holds(se, row(g, c2[j].id())[i].id()));
    }
    assert forall|x: usize| seen.contains(x) <==> listed(c2, x) by {
        if listed(c2, x) {
            let a = choose|a: int| 0 <= a < c2.len() && (#[trigger] c2[a]).id() == x;
            if a < c.len() {
                assert(c[a].id() == x);
            } else {
                assert(sv[sv.len() - 1].id() == x);
            }
        }
        if listed(sv, x) {
            let a = choose|a: int| 0 <= a < sv.len() && (#[trigger] sv[a]).id() == x;
            assert(c2[c.len() as int].id() == x);
        }
        if listed(c, x) {
            let a = choose|a: int| 0 <= a < c.len() && (#[trigger] c[a]).id() == x;
            assert(c2[a].id() == x);
        }
    }
    assert forall|v: usize, w: usize|
        seen.contains(v) && #[trigger] adjacent(g, Set::empty(), v, w) implies seen.contains(w) by {
        let j = choose|j: int| 0 <= j < c2.len() && (#[trigger] c2[j]).id() == v;
        let i = choose|i: int|
            0 <= i < row(g, v).len() && joins(#[trigger] row(g, v)[i], v, w) && !Set::<
                usize,
            >::empty().contains(row(g, v)[i].id());
        let x = row(g, c2[j].id())[i];
        assert(holds(f, x.id()));
        let a = choose|a: int| 0 <= a < f.len() && (#[trigger] f[a]).id() == x.id();
        assert(leads(g, c2[a + 1].id(), f[a], c2[a]));
        let u = c2[a + 1].id();
        let b = choose|b: int| 0 <= b < row(g, u).len() && #[trigger] row(g, u)[b] == f[a];
        assert(same_ends(row(g, u)[b], row(g, v)[i]));
        if w == u {
            assert(c2[a + 1].id() == w);
        } else {
            assert(c2[a].id() == w);
        }
    }
}

/// An Eulerian circuit has exactly as many steps as the graph has edges.
pub proof fn lemma_circuit_length(verts: Seq<Vertex>, g: Graph, vs: Seq<Vertex>, es: Seq<Edge>)
    requires
        well_formed(verts, g),
        is_euler_circuit(verts, g, vs, es),
    ensures
        es.len() == edge_count(verts, g),
{
    let all = every_edge(verts, g, verts.len());
    lemma_every_edge_once(verts, g);
    if no_edges(g) {
        if all.len() > 0 {
            assert(holds(all, all[0].id()));
            assert(knows(g, all[0].id()));
            let (k, i) = choose|k: usize, i: int|
                0 <= i < row(g, k).len() && (#[trigger] row(g, k)[i]).id() == all[0].id();
            assert(degree(g, k) > 0);
        }
    } else {
        assert forall|id: usize| holds(es, id) <==> holds(all, id) by {
            if holds(es, id) {
                let j = choose|j: int| 0 <= j < es.len() && (#[trigger] es[j]).id() == id;
                assert(leads(g, vs[j].id(), es[j], vs[j + 1]));
                let u = vs[j].id();
                let i = choose|i: int| 0 <= i < row(g, u).len() && #[trigger] row(g, u)[i] == es[j];
                assert(row(g, u)[i].id() == id);
                assert(knows(g, id));
            }
        }
        lemma_same_ids_same_length(es, all);
    }
}

/// The index of the first edge at or after `from` whose identity is not
/// marked, where every edge before `from` is marked.
fn next_unused(edges: &Vec<Edge>, used: &BTreeSet<usize>, from: usize) -> (r: Option<usize>)
    requires
        forall|j: int| 0 <= j < from && j < edges@.len() ==> used@.contains((#[trigger] edges@[j]).id()),
    ensures
        match r {
            Some(i) => {
                &&& from <= i < edges@.len()
                &&& !used@.contains(edges@[i as int].id())
                &&& forall|j: int| 0 <= j < i ==> used@.contains((#[trigger] edges@[j]).id())
            },
            None => marked(edges@, used@) == edges@.len(),
        },
{
    let mut i: usize = from;
    while i < edges.len()
        invariant
            from <= i,
            forall|j: int| 0 <= j < i && j < edges@.len() ==> used@.contains((#[trigger] edges@[j]).id()),
        decreases edges.len() - i,
    {
        let id: usize = edges[i].id();
        if !used.contains(&id) {
            return Some(i);
        }
        i += 1;
    }
    proof {
        lemma_marked_all(edges@, used@);
    }
    None
}

/// Every edge that stands before the cursor of its row is marked, but for
/// the edge `taking` that is about to be marked.
spec fn passed(
    g: Graph,
    used: Set<usize>,
    cursor: Map<usize, usize>,
    taking: Option<usize>,
) -> bool {
    forall|k: usize, j: int|
        cursor.contains_key(k) && 0 <= j < cursor[k] && j < row(g, k).len() ==> used.contains(
            (#[trigger] row(g, k)[j]).id(),
        ) || taking == Some(row(g, k)[j].id())
}

/// Walks from the first listed vertex along unused edges until every edge
/// that can be reached is used. Returns the vertices in the order in which
/// the walk left them for good, the edges by which it left them, and the
/// identities of the vertices that it saw. A cursor for each row remembers
/// how far its edges are used, so no edge is looked at twice.
fn hierholzer(vertices: &Vec<Vertex>, map: &AdjList) -> (r: (Vec<Vertex>, Vec<Edge>, BTreeSet<usize>))
    requires
        well_formed(vertices@, rows(map)),
        all_even(rows(map)),
        vertices@.len() > 0,
    ensures
        finished(vertices@, rows(map), r.0@, r.1@, r.2@),
{
    let ghost g = rows(map);
    let start = vertices[0];
    let mut stack_v: Vec<Vertex> = Vec::new();
    let mut stack_e: Vec<Edge> = Vec::new();
    let mut out_v: Vec<Vertex> = Vec::new();
    let mut out_e: Vec<Edge> = Vec::new();
    let mut used: BTreeSet<usize> = BTreeSet::new();
    let mut seen: BTreeSet<usize> = BTreeSet::new();
    let mut cursor: BTreeMap<usize, usize> = BTreeMap::new();
    let ghost mut anchor: usize = start.id();
    stack_v.push(start);
    seen.insert(start.id());
    proof {
        lemma_reachable_self(g, Set::empty(), start.id());
        assert forall|x: usize| parity(g, used@, x, stack_v@.last().id(), anchor) by {
            lemma_marked_none(row(g, x));
            assert(!is_odd(g, x));
        }
        assert forall|x: usize| seen@.contains(x) <==> listed(stack_v@, x) || listed(
            out_v@,
            x,
        ) by {
            if x == start.id() {
                assert(stack_v@[0].id() == x);
            }
        }
        assert(used@ =~= Set::<usize>::empty());
    }
    let mut done = false;
    while !done
        invariant
            g == rows(map),
            well_formed(vertices@, g),
            passed(g, used@, cursor@, None),
            !done ==> running(
                vertices@,
                g,
                stack_v@,
                stack_e@,
                out_v@,
                out_e@,
                used@,
                seen@,
                anchor,
            ),
            done ==> finished(vertices@, g, out_v@, out_e@, seen@),
        decreases
                if done {
                    0
                } else {
                    1 + total_unused(vertices@, g, used@, vertices@.len())
                },
                stack_v@.len(),
    {
        let top = stack_v[stack_v.len() - 1];
        let k: usize = top.id();
        let next: Option<(Edge, usize)> = match map.get(&k) {
            None => {
                proof {
                    assert(row(g, k).len() == 0);
                }
                None
            },
            Some(edges) => {
                assert(row(g, k) == edges@);
                let from: usize = match cursor.get(&k) {
                    Some(at) => *at,
                    None => 0,
                };
                let n: usize = edges.len();
                match next_unused(edges, &used, from) {
                    Some(i) => {
                        assert(i < n);
                        cursor.insert(k, i + 1);
                        Some((edges[i], i))
                    },
                    None => {
                        proof {
                            lemma_marked_all(edges@, used@);
                        }
                        cursor.insert(k, n);
                        None
                    },
                }
            },
        };
        assert(passed(
            g,
            used@,
            cursor@,
            match next {
                Some((e, i)) => Some(e.id()),
                None => None,
            },
        ));
        match next {
            Some((e, i)) => {
                proof {
                    lemma_push(
                        vertices@,
                        g,
                        stack_v@,
                        stack_e@,
                        out_v@,
                        out_e@,
                        used@,
                        seen@,
                        anchor,
                        i as int,
                    );
                }
                let w = e.other_vertex(top).unwrap();
                used.insert(e.id());
                seen.insert(w.id());
                stack_v.push(w);
                stack_e.push(e);
            },
            None => {
                assert(spent(g, used@, k));
                if stack_e.len() == 0 {
                    proof {
                        lemma_finish(
                            vertices@,
                            g,
                            stack_v@,
                            stack_e@,
                            out_v@,
                            out_e@,
                            used@,
                            seen@,
                            anchor,
                        );
                    }
                    out_v.push(top);
                    done = true;
                } else {
                    proof {
                        lemma_pop(
                            vertices@,
                            g,
                            stack_v@,
                            stack_e@,
                            out_v@,
                            out_e@,
                            used@,
                            seen@,
                            anchor,
                        );
                        anchor = stack_v@[stack_v@.len() - 2].id();
                    }
                    let e = stack_e.pop().unwrap();
                    stack_v.pop();
                    out_v.push(top);
                    out_e.push(e);
                }
            },
        }
    }
    (out_v, out_e, seen)
}

/// Whether no listed vertex has odd degree.
fn all_degrees_even(vertices: &Vec<Vertex>, map: &AdjList) -> (r: bool)
    requires
        well_formed(vertices@, rows(map)),
    ensures
        r == all_even(rows(map)),
{
    let mut i: usize = 0;
    while i < vertices.len()
        invariant
            i <= vertices.len(),
            forall|j: int| 0 <= j < i ==> !is_odd(rows(map), (#[trigger] vertices@[j]).id()),
        decreases vertices.len() - i,
    {
        if vertex_is_odd(&vertices[i], map) {
            return false;
        }
        i += 1;
    }
    proof {
        let g = rows(map);
        assert forall|v: usize| !is_odd(g, v) by {
            if g.contains_key(v) {
                assert(listed(vertices@, v));
                let j = choose|j: int| 0 <= j < vertices@.len() && (#[trigger] vertices@[j]).id() == v;
                assert(!is_odd(g, vertices@[j].id()));
            }
        }
    }
    true
}

/// Whether every row is empty.
fn has_no_edges(vertices: &Vec<Vertex>, map: &AdjList) -> (r: bool)
    requires
        well_formed(vertices@, rows(map)),
    ensures
        r == no_edges(rows(map)),
{
    let mut i: usize = 0;
    while i < vertices.len()
        invariant
            i <= vertices.len(),
            forall|j: int| 0 <= j < i ==> degree(rows(map), (#[trigger] vertices@[j]).id()) == 0,
        decreases vertices.len() - i,
    {
        let k: usize = vertices[i].id();
        match map.get(&k) {
            None => {},
            Some(edges) => {
                if edges.len() > 0 {
                    assert(degree(rows(map), k) != 0);
                    return false;
                }
            },
        }
        i += 1;
    }
    proof {
        let g = rows(map);
        assert forall|v: usize| degree(g, v) == 0 by {
            if g.contains_key(v) {
                assert(listed(vertices@, v));
                let j = choose|j: int| 0 <= j < vertices@.len() && (#[trigger] vertices@[j]).id() == v;
                assert(degree(g, vertices@[j].id()) == 0);
            }
        }
    }
    true
}

fn reversed_vertices(v: &Vec<Vertex>) -> (r: Vec<Vertex>)
    ensures
        r@ == v@.reverse(),
{
    let mut r: Vec<Vertex> = Vec::new();
    let mut i: usize = v.len();
    while i > 0
        invariant
            i <= v.len(),
            r@.len() == v.len() - i,
            forall|j: int| 0 <= j < r@.len() ==> r@[j] == v@[v.len() - 1 - j],
        decreases i,
    {
        i -= 1;
        r.push(v[i]);
    }
    proof {
        assert(r@ =~= v@.reverse());
    }
    r
}

fn reversed_edges(v: &Vec<Edge>) -> (r: Vec<Edge>)
    ensures
        r@ == v@.reverse(),
{
    let mut r: Vec<Edge> = Vec::new();
    let mut i: usize = v.len();
    while i > 0
        invariant
            i <= v.len(),
            r@.len() == v.len() - i,
            forall|j: int| 0 <= j < r@.len() ==> r@[j] == v@[v.len() - 1 - j],
        decreases i,
    {
        i -= 1;
        r.push(v[i]);
    }
    proof {
        assert(r@ =~= v@.reverse());
    }
    r
}

/// What was found, read backwards, is an Eulerian circuit if the walk saw
/// every listed vertex.
proof fn lemma_finished_circuit(
    verts: Seq<Vertex>,
    g: Graph,
    c: Seq<Vertex>,
    f: Seq<Edge>,
    seen: Set<usize>,
)
    requires
        well_formed(verts, g),
        finished(verts, g, c, f, seen),
        !no_edges(g),
        forall|j: int| 0 <= j < verts.len() ==> seen.contains((#[trigger] verts[j]).id()),
    ensures
        is_euler_circuit(verts, g, c.reverse(), f.reverse()),
        connected(verts, g, Set::empty()),
{
    let vs = c.reverse();
    let es = f.reverse();
    assert forall|i: int| 0 <= i < es.len() implies leads(
        g,
        vs[i].id(),
        #[trigger] es[i],
        vs[i + 1],
    ) by {
        let j = f.len() - 1 - i;
        assert(leads(g, c[j + 1].id(), f[j], c[j]));
    }
    assert(distinct_edges(es)) by {
        assert forall|a: int, b: int| 0 <= a < b < es.len() implies es[a].id() != es[b].id() by {
            assert(f[f.len() - 1 - b].id() != f[f.len() - 1 - a].id());
        }
    }
    assert forall|id: usize| knows(g, id) implies holds(es, id) by {
        let (k, i) = choose|k: usize, i: int|
            0 <= i < row(g, k).len() && (#[trigger] row(g, k)[i]).id() == id;
        assert(g.contains_key(k));
        assert(listed(verts, k));
        let j = choose|j: int| 0 <= j < verts.len() && (#[trigger] verts[j]).id() == k;
        assert(seen.contains(verts[j].id()));
        assert(listed(c, k));
        let a = choose|a: int| 0 <= a < c.len() && (#[trigger] c[a]).id() == k;
        assert(holds(f, row(g, c[a].id())[i].id()));
        let b = choose|b: int| 0 <= b < f.len() && (#[trigger] f[b]).id() == id;
        assert(es[f.len() - 1 - b].id() == id);
    }
}

/// The Eulerian circuit of a graph of even degrees from the first listed
/// vertex, if every listed vertex can be reached from there.
pub(crate) fn circuit_of(vertices: &Vec<Vertex>, map: &AdjList) -> (r: Result<Route, PostmanError>)
    requires
        well_formed(vertices@, rows(map)),
        all_even(rows(map)),
    ensures
        match r {
            Ok(route) => {
                &&& no_edges(rows(map)) || connected(vertices@, rows(map), Set::empty())
                &&& is_euler_circuit(vertices@, rows(map), route.vertices@, route.edges@)
                &&& route.edges@.len() == edge_count(vertices@, rows(map))
            },
            Err(e) => {
                &&& e == PostmanError::DisconnectedGraph
                &&& !no_edges(rows(map))
                &&& !connected(vertices@, rows(map), Set::empty())
            },
        },
{
    if has_no_edges(vertices, map) {
        proof {
            lemma_circuit_length(
                vertices@,
                rows(map),
                Seq::<Vertex>::empty(),
                Seq::<Edge>::empty(),
            );
        }
        return Ok(Route { vertices: Vec::new(), edges: Vec::new() });
    }
    let ghost g = rows(map);
    proof {
        if vertices@.len() == 0 {
            assert forall|v: usize| degree(g, v) == 0 by {
                if g.contains_key(v) {
                    assert(listed(vertices@, v));
                }
            }
        }
    }
    let (left, by, seen) = hierholzer(vertices, map);
    let mut i: usize = 0;
    while i < vertices.len()
        invariant
            i <= vertices.len(),
            g == rows(map),
            well_formed(vertices@, g),
            all_even(g),
            !no_edges(g),
            finished(vertices@, g, left@, by@, seen@),
            forall|j: int| 0 <= j < i ==> seen@.contains((#[trigger] vertices@[j]).id()),
        decreases vertices.len() - i,
    {
        let k: usize = vertices[i].id();
        if !seen.contains(&k) {
            proof {
                let root = vertices@[0].id();
                if reachable(g, Set::empty(), root, k) {
                    let p = choose|p: Seq<usize>| #[trigger]
                        is_walk(g, Set::empty(), p) && p[0] == root && p.last() == k;
                    assert(left@[left@.len() - 1].id() == root);
                    assert(listed(left@, root));
                    lemma_closed_set_holds_walk(g, Set::empty(), seen@, p);
                }
                assert(!reachable(g, Set::empty(), vertices@[0].id(), vertices@[i as int].id()));
            }
            return Err(PostmanError::DisconnectedGraph);
        }
        i += 1;
    }
    proof {
        lemma_finished_circuit(vertices@, g, left@, by@, seen@);
        lemma_circuit_length(vertices@, g, left@.reverse(), by@.reverse());
    }
    let route_v = reversed_vertices(&left);
    let route_e = reversed_edges(&by);
    Ok(Route { vertices: route_v, edges: route_e })
}

/// Finds a closed walk from the first listed vertex that uses every edge
/// exactly once.
///
/// The walk follows unused edges until it stands where none is left, which
/// in a graph of even degrees closes a circuit; it then steps back along its
/// trail and goes on from the first vertex that still has an unused edge,
/// which splices the next circuit in at that vertex. An explicit stack holds
/// the trail, so the depth of the graph costs no recursion.
///
/// A graph without edges has the empty route. Otherwise every listed vertex
/// must be reachable from the first one.
pub fn find_path(vertices: &Vec<Vertex>, map: &AdjList) -> (r: Result<Route, PostmanError>)
    ensures
        match r {
            Ok(route) => {
                &&& well_formed(vertices@, rows(map))
                &&& all_even(rows(map))
                &&& no_edges(rows(map)) || connected(vertices@, rows(map), Set::empty())
                &&& is_euler_circuit(vertices@, rows(map), route.vertices@, route.edges@)
                &&& route.edges@.len() == edge_count(vertices@, rows(map))
            },
            Err(PostmanError::MalformedAdjacency) => !well_formed(vertices@, rows(map)),
            Err(PostmanError::OddVertex) => well_formed(vertices@, rows(map)) && !all_even(
                rows(map),
            ),
            Err(PostmanError::DisconnectedGraph) => {
                &&& well_formed(vertices@, rows(map))
                &&& all_even(rows(map))
                &&& !no_edges(rows(map))
                &&& !connected(vertices@, rows(map), Set::empty())
            },
        },
{
    if !is_well_formed(vertices, map) {
        return Err(PostmanError::MalformedAdjacency);
    }
    if !all_degrees_even(vertices, map) {
        return Err(PostmanError::OddVertex);
    }
    circuit_of(vertices, map)
}

} // verus!
