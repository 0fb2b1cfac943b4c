//! Eulerization: duplicating edges until every vertex has even degree.

use crate::geometry::{Edge, Vertex};
use crate::id::IDGenerator;
use crate::postman::degree::{edge_is_odd, vertex_is_odd};
use crate::postman::lemmas::{
    lemma_copies_weight, lemma_distinct_edges_count, lemma_occurring_edge_is_no_loop,
    lemma_register_all_degree, lemma_register_all_keeps_well_formed, lemma_register_all_knows,
    lemma_register_all_push, lemma_register_all_rows, lemma_registered_edges_occur,
    lemma_where_identity_lives,
};
use crate::postman::model::{
    adjacent, all_even, connected, copies, degree, distinct_edges, Graph, holds, ids_of, is_odd,
    is_walk,
    joins, knows, no_edges, occurs, reachable, register, register_all, row, rows, same_ends,
    view_rows, well_formed,
};
use crate::postman::plan::{
    duplication_plan, edge_count, every_edge, falls_back, first_odd,
    lemma_even_graph_needs_no_duplicates, lemma_every_edge_once, lemma_plan_evens_out,
    lemma_plan_occurs, lemma_stuck_stays, own, scan, Scan,
};
use crate::postman::validate::is_well_formed;
use crate::postman::PostmanError;
use crate::prelude::AdjList;
use vstd::prelude::*;

verus! {

/// The result of Eulerization.
pub struct Eulerized {
    /// The structure with the duplicates registered.
    pub map: AdjList,
    /// The duplicates, in the order in which they were made.
    pub added: Vec<Edge>,
    /// Whether the scan for edges between two odd vertices failed, so that
    /// every edge was duplicated instead.
    pub fallback: bool,
}

/// `g1` is the Eulerization of `g0`: duplicates of the planned edges, under
/// identities that are new to the structure and differ from each other, are
/// registered, and nothing else has changed.
pub open spec fn eulerization(
    verts: Seq<Vertex>,
    g0: Graph,
    added: Seq<Edge>,
    fallback: bool,
    g1: Graph,
) -> bool {
    &&& fallback == falls_back(verts, g0)
    &&& copies(added, duplication_plan(verts, g0))
    &&& distinct_edges(added)
    &&& forall|j: int| 0 <= j < added.len() ==> !knows(g0, (#[trigger] added[j]).id())
    &&& g1 == register_all(g0, added)
}

/// The generator has issued the identities of `added`, each of them new and
/// each once, and no other.
pub open spec fn newly_issued(before: Set<usize>, added: Seq<Edge>, after: Set<usize>) -> bool {
    &&& distinct_edges(added)
    &&& forall|i: int| 0 <= i < added.len() ==> !before.contains((#[trigger] added[i]).id())
    &&& forall|x: usize| after.contains(x) <==> before.contains(x) || holds(added, x)
}

/// After Eulerization every vertex has even degree, and the structure still
/// is a multigraph.
pub proof fn lemma_eulerization_makes_even(
    verts: Seq<Vertex>,
    g0: Graph,
    added: Seq<Edge>,
    fallback: bool,
    g1: Graph,
)
    requires
        well_formed(verts, g0),
        eulerization(verts, g0, added, fallback, g1),
    ensures
        all_even(g1),
        well_formed(verts, g1),
{
    let plan = duplication_plan(verts, g0);
    lemma_plan_occurs(verts, g0);
    lemma_plan_evens_out(verts, g0);
    lemma_register_all_keeps_well_formed(verts, g0, added, plan);
    assert forall|j: int| 0 <= j < added.len() implies (#[trigger] added[j]).ends().0.id()
        != added[j].ends().1.id() by {
        assert(occurs(g0, plan[j]));
        assert(added[j].ends() == plan[j].ends());
        lemma_occurring_edge_is_no_loop(verts, g0, plan[j]);
    }
    assert forall|k: usize| !is_odd(g1, k) by {
        lemma_register_all_degree(g0, added, k);
        lemma_copies_weight(added, plan, k);
    }
}

/// Where every degree is even already, Eulerization changes nothing.
pub proof fn lemma_even_graph_is_left_alone(
    verts: Seq<Vertex>,
    g0: Graph,
    added: Seq<Edge>,
    fallback: bool,
    g1: Graph,
)
    requires
        all_even(g0),
        eulerization(verts, g0, added, fallback, g1),
    ensures
        added.len() == 0,
        !fallback,
        g1 == g0,
{
    lemma_even_graph_needs_no_duplicates(verts, g0);
}

/// Eulerizing what Eulerization returned changes nothing.
pub proof fn lemma_eulerization_is_idempotent(
    verts: Seq<Vertex>,
    g0: Graph,
    added1: Seq<Edge>,
    fallback1: bool,
    g1: Graph,
    added2: Seq<Edge>,
    fallback2: bool,
    g2: Graph,
)
    requires
        well_formed(verts, g0),
        eulerization(verts, g0, added1, fallback1, g1),
        eulerization(verts, g1, added2, fallback2, g2),
    ensures
        added2.len() == 0,
        !fallback2,
        g2 == g1,
{
    lemma_eulerization_makes_even(verts, g0, added1, fallback1, g1);
    lemma_even_graph_needs_no_duplicates(verts, g1);
}

/// Eulerization adds exactly the duplicates to the edges of the graph.
pub proof fn lemma_eulerization_adds_edges(
    verts: Seq<Vertex>,
    g0: Graph,
    added: Seq<Edge>,
    fallback: bool,
    g1: Graph,
)
    requires
        well_formed(verts, g0),
        eulerization(verts, g0, added, fallback, g1),
    ensures
        edge_count(verts, g1) == edge_count(verts, g0) + added.len(),
        forall|id: usize| knows(g1, id) <==> knows(g0, id) || holds(added, id),
{
    let plan = duplication_plan(verts, g0);
    let e0 = every_edge(verts, g0, verts.len());
    let e1 = every_edge(verts, g1, verts.len());
    lemma_eulerization_makes_even(verts, g0, added, fallback, g1);
    lemma_plan_occurs(verts, g0);
    assert forall|j: int| 0 <= j < added.len() implies (#[trigger] added[j]).ends().0.id()
        != added[j].ends().1.id() by {
        assert(occurs(g0, plan[j]));
        assert(added[j].ends() == plan[j].ends());
        lemma_occurring_edge_is_no_loop(verts, g0, plan[j]);
    }
    lemma_register_all_knows(g0, added);
    lemma_registered_edges_occur(g0, added);
    assert forall|id: usize| knows(g1, id) <==> knows(g0, id) || holds(added, id) by {
        if knows(g0, id) {
            let (k, i) = choose|k: usize, i: int|
                0 <= i < row(g0, k).len() && (#[trigger] row(g0, k)[i]).id() == id;
            assert(occurs(g0, row(g0, k)[i]));
            assert(occurs(g1, row(g0, k)[i]));
            let (k1, i1) = choose|k1: usize, i1: int|
                0 <= i1 < row(g1, k1).len() && #[trigger] row(g1, k1)[i1] == row(g0, k)[i];
            assert(row(g1, k1)[i1].id() == id);
        }
        if holds(added, id) {
            let j = choose|j: int| 0 <= j < added.len() && (#[trigger] added[j]).id() == id;
            assert(occurs(g1, added[j]));
            let (k1, i1) = choose|k1: usize, i1: int|
                0 <= i1 < row(g1, k1).len() && #[trigger] row(g1, k1)[i1] == added[j];
            assert(row(g1, k1)[i1].id() == id);
        }
    }
    lemma_every_edge_once(verts, g0);
    lemma_every_edge_once(verts, g1);
    lemma_distinct_edges_count(e0);
    lemma_distinct_edges_count(e1);
    lemma_distinct_edges_count(added);
    assert(ids_of(e0).disjoint(ids_of(added))) by {
        assert forall|id: usize| !(ids_of(e0).contains(id) && ids_of(added).contains(id)) by {
            if holds(added, id) {
                let j = choose|j: int| 0 <= j < added.len() && (#[trigger] added[j]).id() == id;
                assert(!knows(g0, added[j].id()));
            }
        }
    }
    assert(ids_of(e1) =~= ids_of(e0) + ids_of(added));
    vstd::set_lib::lemma_set_disjoint_lens(ids_of(e0), ids_of(added));
}

/// Duplicates join only vertices that an edge joined before.
proof fn lemma_duplicates_join_neighbours(
    verts: Seq<Vertex>,
    g: Graph,
    ds: Seq<Edge>,
    plan: Seq<Edge>,
    a: usize,
    b: usize,
)
    requires
        well_formed(verts, g),
        copies(ds, plan),
        forall|j: int| 0 <= j < plan.len() ==> occurs(g, #[trigger] plan[j]),
    ensures
        adjacent(register_all(g, ds), Set::empty(), a, b) <==> adjacent(g, Set::empty(), a, b),
{
    let g2 = register_all(g, ds);
    let none = Set::<usize>::empty();
    assert forall|j: int| 0 <= j < ds.len() implies (#[trigger] ds[j]).ends().0.id()
        != ds[j].ends().1.id() by {
        assert(occurs(g, plan[j]));
        lemma_occurring_edge_is_no_loop(verts, g, plan[j]);
    }
    lemma_register_all_degree(g, ds, a);
    if adjacent(g, none, a, b) {
        let i = choose|i: int|
            0 <= i < row(g, a).len() && joins(#[trigger] row(g, a)[i], a, b) && !none.contains(
                row(g, a)[i].id(),
            );
        assert(row(g2, a)[i] == row(g, a)[i]);
        assert(joins(row(g2, a)[i], a, b));
    }
    if adjacent(g2, none, a, b) {
        let i = choose|i: int|
            0 <= i < row(g2, a).len() && joins(#[trigger] row(g2, a)[i], a, b) && !none.contains(
                row(g2, a)[i].id(),
            );
        lemma_register_all_rows(g, ds, a, i);
        if i < row(g, a).len() && row(g2, a)[i] == row(g, a)[i] {
            assert(joins(row(g, a)[i], a, b));
        } else {
            let j = choose|j: int| 0 <= j < ds.len() && #[trigger] ds[j] == row(g2, a)[i];
            let e = plan[j];
            assert(occurs(g, e));
            assert(ds[j].ends() == e.ends());
            let (k0, i0) = choose|k0: usize, i0: int|
                0 <= i0 < row(g, k0).len() && #[trigger] row(g, k0)[i0] == e;
            lemma_where_identity_lives(verts, g, k0, i0, a);
            let i2 = choose|i2: int| 0 <= i2 < row(g, a).len() && (#[trigger] row(g, a)[i2]).id() == e.id();
            assert(same_ends(row(g, a)[i2], row(g, k0)[i0]));
            assert(joins(row(g, a)[i2], a, b));
        }
    }
}

/// Eulerization is strictly additive: every row keeps its edges in their
/// places, and a vertex can be reached afterwards exactly if it could be
/// reached before. So a connected graph stays connected.
pub proof fn lemma_eulerization_keeps_connectivity(
    verts: Seq<Vertex>,
    g0: Graph,
    added: Seq<Edge>,
    fallback: bool,
    g1: Graph,
)
    requires
        well_formed(verts, g0),
        eulerization(verts, g0, added, fallback, g1),
    ensures
        forall|k: usize| row(g0, k).is_prefix_of(#[trigger] row(g1, k)),
        forall|a: usize, b: usize|
            reachable(g0, Set::empty(), a, b) <==> #[trigger] reachable(g1, Set::empty(), a, b),
        connected(verts, g0, Set::empty()) <==> connected(verts, g1, Set::empty()),
        no_edges(g0) <==> no_edges(g1),
{
    let plan = duplication_plan(verts, g0);
    let none = Set::<usize>::empty();
    lemma_plan_occurs(verts, g0);
    assert forall|j: int| 0 <= j < added.len() implies (#[trigger] added[j]).ends().0.id()
        != added[j].ends().1.id() by {
        assert(occurs(g0, plan[j]));
        assert(added[j].ends() == plan[j].ends());
        lemma_occurring_edge_is_no_loop(verts, g0, plan[j]);
    }
    assert forall|k: usize| row(g0, k).is_prefix_of(#[trigger] row(g1, k)) by {
        lemma_register_all_degree(g0, added, k);
    }
    assert forall|a: usize, b: usize| adjacent(g1, none, a, b) <==> adjacent(g0, none, a, b) by {
        lemma_duplicates_join_neighbours(verts, g0, added, plan, a, b);
    }
    assert forall|p: Seq<usize>| is_walk(g0, none, p) <==> is_walk(g1, none, p) by {
        if is_walk(g0, none, p) {
            assert forall|i: int| 0 <= i < p.len() - 1 implies adjacent(
                g1,
                none,
                #[trigger] p[i],
                p[i + 1],
            ) by {
                assert(adjacent(g0, none, p[i], p[i + 1]));
            }
        }
        if is_walk(g1, none, p) {
            assert forall|i: int| 0 <= i < p.len() - 1 implies adjacent(
                g0,
                none,
                #[trigger] p[i],
                p[i + 1],
            ) by {
                assert(adjacent(g1, none, p[i], p[i + 1]));
            }
        }
    }
    assert forall|a: usize, b: usize|
        reachable(g0, none, a, b) <==> #[trigger] reachable(g1, none, a, b) by {
        if reachable(g0, none, a, b) {
            let p = choose|p: Seq<usize>| #[trigger] is_walk(g0, none, p) && p[0] == a && p.last() == b;
            assert(is_walk(g1, none, p));
        }
        if reachable(g1, none, a, b) {
            let p = choose|p: Seq<usize>| #[trigger] is_walk(g1, none, p) && p[0] == a && p.last() == b;
            assert(is_walk(g0, none, p));
        }
    }
    if connected(verts, g0, none) {
        assert forall|i: int| 0 <= i < verts.len() implies reachable(
            g1,
            none,
            verts[0].id(),
            (#[trigger] verts[i]).id(),
        ) by {
            assert(reachable(g0, none, verts[0].id(), verts[i].id()));
        }
    }
    if connected(verts, g1, none) {
        assert forall|i: int| 0 <= i < verts.len() implies reachable(
            g0,
            none,
            verts[0].id(),
            (#[trigger] verts[i]).id(),
        ) by {
            assert(reachable(g1, none, verts[0].id(), verts[i].id()));
        }
    }
    if no_edges(g0) {
        assert forall|v: usize| !is_odd(g0, v) by {
            assert(degree(g0, v) == 0);
        }
        lemma_even_graph_needs_no_duplicates(verts, g0);
        assert(added.len() == 0);
    }
    if no_edges(g1) {
        assert forall|v: usize| degree(g0, v) == 0 by {
            assert(row(g0, v).is_prefix_of(row(g1, v)));
            assert(degree(g1, v) == 0);
        }
    }
}

/// Appends `d` to the row of `k`, which is made if it is missing.
fn push_to_row(map: &mut AdjList, k: usize, d: Edge)
    ensures
        view_rows(final(map)@) == view_rows(old(map)@).insert(
            k,
            row(view_rows(old(map)@), k).push(d),
        ),
{
    let mut r: Vec<Edge> = match map.remove(&k) {
        Some(r) => r,
        None => Vec::new(),
    };
    r.push(d);
    map.insert(k, r);
    proof {
        assert(view_rows(map@) =~= view_rows(old(map)@).insert(
            k,
            row(view_rows(old(map)@), k).push(d),
        ));
    }
}

/// Registers `d` with both of its endpoints.
pub fn register_edge(map: &mut AdjList, d: Edge)
    ensures
        view_rows(final(map)@) == register(view_rows(old(map)@), d),
{
    let (p, q) = d.vertices();
    let a: usize = p.id();
    let b: usize = q.id();
    push_to_row(map, a, d);
    push_to_row(map, b, d);
}

/// The index of the first edge that joins two vertices of odd degree.
fn first_odd_edge(edges: &Vec<Edge>, map: &AdjList) -> (j: usize)
    ensures
        j == first_odd(rows(map), edges@, 0),
        j <= edges@.len(),
{
    let mut j: usize = 0;
    while j < edges.len()
        invariant
            j <= edges.len(),
            first_odd(rows(map), edges@, 0) == first_odd(rows(map), edges@, j as int),
        decreases edges.len() - j,
    {
        if edge_is_odd(&edges[j], map) {
            return j;
        }
        j += 1;
    }
    j
}

/// Scans the vertex list for edges between two odd vertices.
fn local_plan(vertices: &Vec<Vertex>, map: &AdjList) -> (r: Option<Vec<Edge>>)
    ensures
        match r {
            Some(p) => !falls_back(vertices@, rows(map)) && p@ == scan(
                vertices@,
                rows(map),
                vertices@.len(),
            ).chosen,
            None => falls_back(vertices@, rows(map)),
        },
{
    let mut work = map.clone();
    let mut plan: Vec<Edge> = Vec::new();
    let mut i: usize = 0;
    proof {
        assert(rows(&work) =~= rows(map));
    }
    while i < vertices.len()
        invariant
            i <= vertices.len(),
            scan(vertices@, rows(map), i as nat) == (Scan {
                g: rows(&work),
                chosen: plan@,
                stuck: false,
            }),
        decreases vertices.len() - i,
    {
        let v = &vertices[i];
        if vertex_is_odd(v, &work) {
            let k: usize = v.id();
            let found: Option<Edge> = match work.get(&k) {
                None => None,
                Some(edges) => {
                    assert(row(rows(&work), k) == edges@);
                    let j = first_odd_edge(edges, &work);
                    if j < edges.len() {
                        Some(edges[j])
                    } else {
                        None
                    }
                },
            };
            match found {
                Some(e) => {
                    register_edge(&mut work, e);
                    plan.push(e);
                },
                None => {
                    proof {
                        assert(scan(vertices@, rows(map), (i + 1) as nat).stuck);
                        lemma_stuck_stays(
                            vertices@,
                            rows(map),
                            (i + 1) as nat,
                            vertices@.len(),
                        );
                    }
                    return None;
                },
            }
        }
        i += 1;
    }
    Some(plan)
}

/// Every edge once, in the order of the vertex list and of the rows.
fn collect_every_edge(vertices: &Vec<Vertex>, map: &AdjList) -> (all: Vec<Edge>)
    ensures
        all@ == every_edge(vertices@, rows(map), vertices@.len()),
{
    let ghost g = rows(map);
    let mut all: Vec<Edge> = Vec::new();
    let mut a: usize = 0;
    while a < vertices.len()
        invariant
            a <= vertices.len(),
            g == rows(map),
            all@ == every_edge(vertices@, g, a as nat),
        decreases vertices.len() - a,
    {
        let k: usize = vertices[a].id();
        let ghost base = all@;
        match map.get(&k) {
            None => {
                proof {
                    assert(row(g, k) =~= Seq::<Edge>::empty());
                    assert(base + own(row(g, k), k) =~= base);
                }
            },
            Some(edges) => {
                assert(row(g, k) == edges@);
                let mut i: usize = 0;
                proof {
                    assert(edges@.take(0) =~= Seq::<Edge>::empty());
                    assert(base + own(edges@.take(0), k) =~= base);
                }
                while i < edges.len()
                    invariant
                        i <= edges.len(),
                        all@ == base + own(edges@.take(i as int), k),
                    decreases edges.len() - i,
                {
                    let e = edges[i];
                    proof {
                        assert(edges@.take(i + 1).drop_last() =~= edges@.take(i as int));
                        assert(edges@.take(i + 1).last() == edges@[i as int]);
                    }
                    let (p, _q) = e.vertices();
                    if p.id() == k {
                        all.push(e);
                        proof {
                            assert(all@ =~= base + own(edges@.take(i + 1), k));
                        }
                    }
                    i += 1;
                }
                proof {
                    assert(edges@.take(edges@.len() as int) =~= edges@);
                }
            },
        }
        a += 1;
    }
    all
}

/// Makes a duplicate of each planned edge and registers it.
fn materialize<G: IDGenerator>(plan: &Vec<Edge>, map: &AdjList, gen: &mut G) -> (r: (
    AdjList,
    Vec<Edge>,
))
    requires
        old(gen).remaining() >= plan@.len(),
    ensures
        copies(r.1@, plan@),
        rows(&r.0) == register_all(rows(map), r.1@),
        newly_issued(old(gen).issued(), r.1@, final(gen).issued()),
        final(gen).remaining() == old(gen).remaining() - plan@.len(),
{
    let mut out = map.clone();
    let mut added: Vec<Edge> = Vec::new();
    let mut j: usize = 0;
    proof {
        assert(rows(&out) =~= rows(map));
    }
    while j < plan.len()
        invariant
            j <= plan.len(),
            added@.len() == j,
            forall|j2: int| 0 <= j2 < j ==> (#[trigger] added@[j2]).ends() == plan@[j2].ends(),
            rows(&out) == register_all(rows(map), added@),
            newly_issued(old(gen).issued(), added@, gen.issued()),
            gen.remaining() == old(gen).remaining() - j,
            old(gen).remaining() >= plan@.len(),
        decreases plan.len() - j,
    {
        let e = plan[j];
        let (p, q) = e.vertices();
        let ghost so_far = added@;
        let d = Edge::new((*p, *q), gen);
        proof {
            assert(d.ends() == e.ends());
            lemma_register_all_push(rows(map), added@, d);
        }
        register_edge(&mut out, d);
        added.push(d);
        proof {
            assert forall|x: usize| gen.issued().contains(x) <==> old(gen).issued().contains(x)
                || holds(added@, x) by {
                if holds(added@, x) {
                    let i = choose|i: int| 0 <= i < added@.len() && (#[trigger] added@[i]).id() == x;
                    if i < so_far.len() {
                        assert(so_far[i].id() == x);
                    }
                }
                if holds(so_far, x) {
                    let i = choose|i: int| 0 <= i < so_far.len() && (#[trigger] so_far[i]).id() == x;
                    assert(added@[i].id() == x);
                }
                if x == d.id() {
                    assert(added@[so_far.len() as int].id() == x);
                }
            }
            assert(distinct_edges(added@)) by {
                assert forall|i1: int, i2: int| 0 <= i1 < i2 < added@.len() implies added@[i1].id()
                    != added@[i2].id() by {
                    if i2 == so_far.len() {
                        assert(so_far[i1].id() == added@[i1].id());
                        assert(holds(so_far, so_far[i1].id()));
                    } else {
                        assert(so_far[i1].id() != so_far[i2].id());
                    }
                }
            }
            assert forall|i: int| 0 <= i < added@.len() implies !old(gen).issued().contains(
                (#[trigger] added@[i]).id(),
            ) by {
                if i < so_far.len() {
                    assert(so_far[i].id() == added@[i].id());
                }
            }
        }
        j += 1;
    }
    (out, added)
}

/// Makes every vertex degree even by duplicating edges.
///
/// The vertices are taken in the order of the list. One of even degree is
/// passed over. For one of odd degree, the first edge of its row that joins
/// two vertices of odd degree is marked for duplication, which makes both
/// even. If an odd vertex has no such edge, the scan is given up and every
/// edge of the graph is duplicated once instead, which doubles every degree;
/// `fallback` says so. No edge is ever removed, and `gen` issues exactly one
/// identity for each duplicate that the result holds.
pub fn duplicate_odd_edges<G: IDGenerator>(
    vertices: &Vec<Vertex>,
    map: &AdjList,
    gen: &mut G,
) -> (r: Result<Eulerized, PostmanError>)
    requires
        forall|id: usize| knows(rows(map), id) ==> old(gen).issued().contains(id),
        old(gen).remaining() >= duplication_plan(vertices@, rows(map)).len(),
    ensures
        match r {
            Ok(out) => {
                &&& well_formed(vertices@, rows(map))
                &&& eulerization(vertices@, rows(map), out.added@, out.fallback, rows(&out.map))
                &&& newly_issued(old(gen).issued(), out.added@, final(gen).issued())
                &&& final(gen).remaining() == old(gen).remaining() - out.added@.len()
                &&& all_even(rows(&out.map))
                &&& well_formed(vertices@, rows(&out.map))
                &&& all_even(rows(map)) ==> out.added@.len() == 0 && rows(&out.map) == rows(map)
                &&& forall|k: usize| row(rows(map), k).is_prefix_of(#[trigger] row(rows(&out.map), k))
                &&& connected(vertices@, rows(map), Set::empty()) ==> connected(
                    vertices@,
                    rows(&out.map),
                    Set::empty(),
                )
            },
            Err(e) => {
                &&& e == PostmanError::MalformedAdjacency
                &&& !well_formed(vertices@, rows(map))
                &&& *final(gen) == *old(gen)
            },
        },
{
    if !is_well_formed(vertices, map) {
        return Err(PostmanError::MalformedAdjacency);
    }
    let ghost g0 = rows(map);
    let (plan, fallback) = match local_plan(vertices, map) {
        Some(p) => (p, false),
        None => (collect_every_edge(vertices, map), true),
    };
    let (out, added) = materialize(&plan, map, gen);
    proof {
        let g1 = rows(&out);
        assert forall|j: int| 0 <= j < added@.len() implies !knows(
            g0,
            (#[trigger] added@[j]).id(),
        ) by {
            assert(!old(gen).issued().contains(added@[j].id()));
        }
        lemma_eulerization_makes_even(vertices@, g0, added@, fallback, g1);
        lemma_eulerization_keeps_connectivity(vertices@, g0, added@, fallback, g1);
        if all_even(g0) {
            lemma_even_graph_is_left_alone(vertices@, g0, added@, fallback, g1);
        }
    }
    Ok(Eulerized { map: out, added, fallback })
}

} // verus!
