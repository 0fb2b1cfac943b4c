//! The plan of Eulerization: which edges are duplicated.

use crate::geometry::{Edge, Vertex};
use crate::postman::lemmas::{
    lemma_mark_absent, lemma_mark_present, lemma_marked_all, lemma_marked_none,
    lemma_occurring_edge_is_no_loop, lemma_register_all_degree, lemma_register_all_push,
    lemma_register_row, lemma_where_identity_lives,
};
use crate::postman::model::{
    all_even, degree, distinct_edges, Graph, holds, ids_of, is_odd, joins_odd, knows, listed,
    marked, occurs, register, register_all, row, row_sound, same_ends, weight, well_formed,
};
use vstd::prelude::*;

verus! {

/// The index of the first edge at or after `from` that joins two vertices of
/// odd degree, or the length of the sequence if there is none.
pub open spec fn first_odd(g: Graph, s: Seq<Edge>, from: int) -> int
    decreases s.len() - from,
{
    if from < 0 || from >= s.len() {
        s.len() as int
    } else if joins_odd(g, s[from]) {
        from
    } else {
        first_odd(g, s, from + 1)
    }
}

/// The state of the scan over the vertex list.
pub struct Scan {
    /// The structure with one more edge registered for each chosen edge.
    pub g: Graph,
    /// The edges chosen for duplication so far.
    pub chosen: Seq<Edge>,
    /// Some odd vertex had no edge that joins two odd vertices.
    pub stuck: bool,
}

/// The scan after the first `n` listed vertices. A vertex of even degree is
/// passed over. For one of odd degree, the first edge of its row that joins
/// two odd vertices is chosen and counted once more at both ends; without
/// such an edge the scan is stuck and stays so.
pub open spec fn scan(verts: Seq<Vertex>, g0: Graph, n: nat) -> Scan
    decreases n,
{
    if n == 0 {
        Scan { g: g0, chosen: Seq::empty(), stuck: false }
    } else {
        let s = scan(verts, g0, (n - 1) as nat);
        let v = verts[n - 1].id();
        if s.stuck || !is_odd(s.g, v) {
            s
        } else {
            let i = first_odd(s.g, row(s.g, v), 0);
            if i < row(s.g, v).len() {
                let e = row(s.g, v)[i];
                Scan { g: register(s.g, e), chosen: s.chosen.push(e), stuck: false }
            } else {
                Scan { g: s.g, chosen: s.chosen, stuck: true }
            }
        }
    }
}

/// The edges of the row of `k` that have `k` as their first endpoint.
pub open spec fn own(s: Seq<Edge>, k: usize) -> Seq<Edge>
    decreases s.len(),
{
    if s.len() == 0 {
        Seq::empty()
    } else if s.last().ends().0.id() == k {
        own(s.drop_last(), k).push(s.last())
    } else {
        own(s.drop_last(), k)
    }
}

/// Every edge of the rows of the first `n` listed vertices, taken where it
/// stands in the row of its first endpoint: each edge of a well-formed
/// structure once.
pub open spec fn every_edge(verts: Seq<Vertex>, g: Graph, n: nat) -> Seq<Edge>
    decreases n,
{
    if n == 0 {
        Seq::empty()
    } else {
        every_edge(verts, g, (n - 1) as nat) + own(row(g, verts[n - 1].id()), verts[n - 1].id())
    }
}

/// Whether the scan fails, so that the whole graph is duplicated.
pub open spec fn falls_back(verts: Seq<Vertex>, g: Graph) -> bool {
    scan(verts, g, verts.len()).stuck
}

/// The edges that Eulerization duplicates, in order: those that the scan
/// chooses, or every edge once if the scan fails.
pub open spec fn duplication_plan(verts: Seq<Vertex>, g: Graph) -> Seq<Edge> {
    if falls_back(verts, g) {
        every_edge(verts, g, verts.len())
    } else {
        scan(verts, g, verts.len()).chosen
    }
}

/// The first odd edge is odd, and no edge before it is.
proof fn lemma_first_odd(g: Graph, s: Seq<Edge>, from: int)
    requires
        0 <= from <= s.len(),
    ensures
        from <= first_odd(g, s, from) <= s.len(),
        first_odd(g, s, from) < s.len() ==> joins_odd(g, s[first_odd(g, s, from)]),
        forall|j: int| from <= j < first_odd(g, s, from) ==> !joins_odd(g, #[trigger] s[j]),
    decreases s.len() - from,
{
    if from < s.len() && !joins_odd(g, s[from]) {
        lemma_first_odd(g, s, from + 1);
    }
}

/// What holds of the scan of a well-formed structure after `n` vertices.
spec fn settled(verts: Seq<Vertex>, g0: Graph, s: Scan, n: nat) -> bool {
    &&& s.g == register_all(g0, s.chosen)
    &&& forall|j: int| 0 <= j < s.chosen.len() ==> occurs(g0, #[trigger] s.chosen[j])
    &&& forall|k: usize, i: int|
        0 <= i < row(s.g, k).len() ==> occurs(g0, #[trigger] row(s.g, k)[i]) && row(
            s.g,
            k,
        )[i].touches(k)
    &&& !s.stuck ==> forall|j: int| 0 <= j < n ==> !is_odd(s.g, (#[trigger] verts[j]).id())
}

/// The scan of a well-formed structure keeps what `settled` says.
proof fn lemma_scan_settles(verts: Seq<Vertex>, g0: Graph, n: nat)
    requires
        well_formed(verts, g0),
        n <= verts.len(),
    ensures
        settled(verts, g0, scan(verts, g0, n), n),
    decreases n,
{
    if n == 0 {
        assert forall|k: usize, i: int| 0 <= i < row(g0, k).len() implies occurs(
            g0,
            #[trigger] row(g0, k)[i],
        ) && row(g0, k)[i].touches(k) by {
            lemma_where_identity_lives(verts, g0, k, i, k);
        }
    } else {
        let s = scan(verts, g0, (n - 1) as nat);
        lemma_scan_settles(verts, g0, (n - 1) as nat);
        let v = verts[n - 1].id();
        let t = scan(verts, g0, n);
        if s.stuck || !is_odd(s.g, v) {
        } else {
            let i = first_odd(s.g, row(s.g, v), 0);
            lemma_first_odd(s.g, row(s.g, v), 0);
            if i < row(s.g, v).len() {
                let e = row(s.g, v)[i];
                assert(occurs(g0, e) && e.touches(v));
                lemma_occurring_edge_is_no_loop(verts, g0, e);
                lemma_register_all_push(g0, s.chosen, e);
                assert forall|k: usize, i2: int| 0 <= i2 < row(t.g, k).len() implies occurs(
                    g0,
                    #[trigger] row(t.g, k)[i2],
                ) && row(t.g, k)[i2].touches(k) by {
                    lemma_register_row(s.g, e, k);
                    if i2 < row(s.g, k).len() {
                        assert(row(t.g, k)[i2] == row(s.g, k)[i2]);
                    }
                }
                assert forall|j: int| 0 <= j < n implies !is_odd(
                    t.g,
                    (#[trigger] verts[j]).id(),
                ) by {
                    lemma_register_row(s.g, e, verts[j].id());
                }
            }
        }
    }
}

/// Once the scan is stuck it stays stuck.
pub proof fn lemma_stuck_stays(verts: Seq<Vertex>, g0: Graph, m: nat, n: nat)
    requires
        m <= n,
        scan(verts, g0, m).stuck,
    ensures
        scan(verts, g0, n).stuck,
        scan(verts, g0, n) == scan(verts, g0, m),
    decreases n,
{
    if m < n {
        lemma_stuck_stays(verts, g0, m, (n - 1) as nat);
    }
}

/// A scan that does not get stuck leaves every degree even.
pub proof fn lemma_scan_makes_even(verts: Seq<Vertex>, g0: Graph)
    requires
        well_formed(verts, g0),
        !falls_back(verts, g0),
    ensures
        all_even(register_all(g0, scan(verts, g0, verts.len()).chosen)),
{
    let s = scan(verts, g0, verts.len());
    lemma_scan_settles(verts, g0, verts.len());
    assert forall|k: usize| !is_odd(s.g, k) by {
        if is_odd(s.g, k) {
            let x = row(s.g, k)[0];
            assert(occurs(g0, x) && x.touches(k));
            let (k0, i0) = choose|k0: usize, i0: int|
                0 <= i0 < row(g0, k0).len() && #[trigger] row(g0, k0)[i0] == x;
            lemma_where_identity_lives(verts, g0, k0, i0, k);
            assert(g0.contains_key(k));
            assert(listed(verts, k));
            let j = choose|j: int| 0 <= j < verts.len() && (#[trigger] verts[j]).id() == k;
            assert(!is_odd(s.g, verts[j].id()));
        }
    }
}

/// Where every degree is even the scan chooses nothing and does not fail.
pub proof fn lemma_even_graph_needs_no_duplicates(verts: Seq<Vertex>, g: Graph)
    requires
        all_even(g),
    ensures
        !falls_back(verts, g),
        duplication_plan(verts, g) == Seq::<Edge>::empty(),
{
    lemma_even_scan(verts, g, verts.len());
}

/// Where every degree is even the scan never leaves its first state.
proof fn lemma_even_scan(verts: Seq<Vertex>, g: Graph, n: nat)
    requires
        all_even(g),
    ensures
        scan(verts, g, n) == (Scan { g: g, chosen: Seq::empty(), stuck: false }),
    decreases n,
{
    if n > 0 {
        lemma_even_scan(verts, g, (n - 1) as nat);
        assert(!is_odd(g, verts[n - 1].id()));
    }
}

/// The edges of a row that have the row's vertex as their first endpoint are
/// edges of the row.
proof fn lemma_own_is_part(s: Seq<Edge>, k: usize, j: int)
    requires
        0 <= j < own(s, k).len(),
    ensures
        exists|i: int| 0 <= i < s.len() && #[trigger] s[i] == own(s, k)[j],
    decreases s.len(),
{
    if s.len() > 0 {
        let t = s.drop_last();
        if j < own(t, k).len() {
            lemma_own_is_part(t, k, j);
            let i = choose|i: int| 0 <= i < t.len() && #[trigger] t[i] == own(t, k)[j];
            assert(s[i] == own(s, k)[j]);
        } else {
            assert(s[s.len() - 1] == own(s, k)[j]);
        }
    }
}

/// Every edge of the duplication plan occurs in the structure.
pub proof fn lemma_plan_occurs(verts: Seq<Vertex>, g: Graph)
    requires
        well_formed(verts, g),
    ensures
        forall|j: int|
            0 <= j < duplication_plan(verts, g).len() ==> occurs(
                g,
                #[trigger] duplication_plan(verts, g)[j],
            ),
{
    lemma_scan_settles(verts, g, verts.len());
    lemma_every_edge_occurs(verts, g, verts.len());
}

/// Every listed edge occurs in the structure.
proof fn lemma_every_edge_occurs(verts: Seq<Vertex>, g: Graph, n: nat)
    ensures
        forall|j: int|
            0 <= j < every_edge(verts, g, n).len() ==> occurs(g, #[trigger] every_edge(verts, g, n)[j]),
    decreases n,
{
    if n > 0 {
        lemma_every_edge_occurs(verts, g, (n - 1) as nat);
        let before = every_edge(verts, g, (n - 1) as nat);
        let k = verts[n - 1].id();
        assert forall|j: int| 0 <= j < every_edge(verts, g, n).len() implies occurs(
            g,
            #[trigger] every_edge(verts, g, n)[j],
        ) by {
            if j < before.len() {
                assert(occurs(g, before[j]));
            } else {
                lemma_own_is_part(row(g, k), k, j - before.len());
                let i = choose|i: int|
                    0 <= i < row(g, k).len() && #[trigger] row(g, k)[i] == own(row(g, k), k)[j
                        - before.len()];
                assert(row(g, k)[i] == every_edge(verts, g, n)[j]);
            }
        }
    }
}

/// The edge `e` stands in the rows before position `i` of vertex `a`, at the
/// side of its first endpoint.
spec fn collected_from(
    verts: Seq<Vertex>,
    g: Graph,
    e: Edge,
    a: int,
    i: int,
) -> bool {
    exists|b: int, j: int|
        0 <= b < verts.len() && (b < a || (b == a && j < i)) && 0 <= j < row(
            g,
            verts[b].id(),
        ).len() && #[trigger] row(g, verts[b].id())[j] == e && e.ends().0.id() == verts[b].id()
}

/// `all` holds what stands before position `i` of vertex `a`, no more, and
/// its ends at each vertex are counted by the marks of that vertex's row.
spec fn collected(
    verts: Seq<Vertex>,
    g: Graph,
    all: Seq<Edge>,
    a: int,
    i: int,
) -> bool {
    &&& forall|j: int| 0 <= j < all.len() ==> collected_from(verts, g, #[trigger] all[j], a, i)
    &&& forall|b: int, j: int|
        0 <= b < verts.len() && (b < a || (b == a && j < i)) && 0 <= j < row(
            g,
            verts[b].id(),
        ).len() && (#[trigger] row(g, verts[b].id())[j]).ends().0.id() == verts[b].id() ==> holds(
            all,
            row(g, verts[b].id())[j].id(),
        )
    &&& forall|k: usize| weight(all, k) == marked(row(g, k), ids_of(all))
    &&& distinct_edges(all)
}

/// Taking the edge at position `i` of vertex `a`, if it stands at the side of
/// its first endpoint, keeps the collection in step.
proof fn lemma_collect_step(
    verts: Seq<Vertex>,
    g: Graph,
    all: Seq<Edge>,
    a: int,
    i: int,
)
    requires
        well_formed(verts, g),
        0 <= a < verts.len(),
        0 <= i < row(g, verts[a].id()).len(),
        collected(verts, g, all, a, i),
    ensures
        collected(
            verts,
            g,
            if row(g, verts[a].id())[i].ends().0.id() == verts[a].id() {
                all.push(row(g, verts[a].id())[i])
            } else {
                all
            },
            a,
            i + 1,
        ),
{
    let k = verts[a].id();
    let e = row(g, k)[i];
    if e.ends().0.id() == k {
        let next = all.push(e);
        if holds(all, e.id()) {
            let j = choose|j: int| 0 <= j < all.len() && (#[trigger] all[j]).id() == e.id();
            assert(collected_from(verts, g, all[j], a, i));
            let (b, j2) = choose|b: int, j2: int|
                0 <= b < verts.len() && (b < a || (b == a && j2 < i)) && 0 <= j2 < row(
                    g,
                    verts[b].id(),
                ).len() && #[trigger] row(g, verts[b].id())[j2] == all[j] && all[j].ends().0.id()
                    == verts[b].id();
            assert(row(g, verts[b].id())[j2].id() == row(g, k)[i].id());
            assert(same_ends(row(g, verts[b].id())[j2], row(g, k)[i]));
            assert(verts[b].id() == verts[a].id());
            assert(b == a);
            assert(row_sound(g, k));
            assert(false);
        }
        assert(ids_of(next) =~= ids_of(all).insert(e.id())) by {
            assert forall|x: usize| ids_of(next).contains(x) implies ids_of(all).insert(
                e.id(),
            ).contains(x) by {
                let j = choose|j: int| 0 <= j < next.len() && (#[trigger] next[j]).id() == x;
                if j < all.len() {
                    assert(all[j].id() == x);
                }
            }
            assert forall|x: usize| ids_of(all).insert(e.id()).contains(x) implies ids_of(
                next,
            ).contains(x) by {
                if x == e.id() {
                    assert(next[all.len() as int].id() == x);
                } else {
                    let j = choose|j: int| 0 <= j < all.len() && (#[trigger] all[j]).id() == x;
                    assert(next[j].id() == x);
                }
            }
        }
        assert(next.drop_last() =~= all);
        assert(distinct_edges(next)) by {
            assert forall|j1: int, j2: int| 0 <= j1 < j2 < next.len() implies next[j1].id()
                != next[j2].id() by {
                if j2 == all.len() {
                    assert(all[j1].id() != e.id());
                } else {
                    assert(all[j1].id() != all[j2].id());
                }
            }
        }
        assert forall|k2: usize| weight(next, k2) == marked(row(g, k2), ids_of(next)) by {
            lemma_where_identity_lives(verts, g, k, i, k2);
            assert(row_sound(g, k2));
            assert(!ids_of(all).contains(e.id()));
            if e.touches(k2) {
                lemma_mark_present(row(g, k2), ids_of(all), e.id());
            } else {
                lemma_mark_absent(row(g, k2), ids_of(all), e.id());
            }
            assert(next.last() == e);
            assert(weight(next, k2) == weight(all, k2) + if e.touches(k2) {
                1nat
            } else {
                0nat
            });
            assert(marked(row(g, k2), ids_of(next)) == marked(
                row(g, k2),
                ids_of(all).insert(e.id()),
            ));
        }
        assert forall|j: int| 0 <= j < next.len() implies collected_from(
            verts,
            g,
            #[trigger] next[j],
            a,
            i + 1,
        ) by {
            if j < all.len() {
                assert(collected_from(verts, g, all[j], a, i));
                let (b, j2) = choose|b: int, j2: int|
                    0 <= b < verts.len() && (b < a || (b == a && j2 < i)) && 0 <= j2 < row(
                        g,
                        verts[b].id(),
                    ).len() && #[trigger] row(g, verts[b].id())[j2] == all[j]
                        && all[j].ends().0.id() == verts[b].id();
                assert(row(g, verts[b].id())[j2] == next[j]);
            } else {
                assert(row(g, verts[a].id())[i] == next[j]);
            }
        }
        assert forall|b: int, j: int|
            0 <= b < verts.len() && (b < a || (b == a && j < i + 1)) && 0 <= j < row(
                g,
                verts[b].id(),
            ).len() && (#[trigger] row(g, verts[b].id())[j]).ends().0.id()
                == verts[b].id() implies holds(next, row(g, verts[b].id())[j].id()) by {
            let x = row(g, verts[b].id())[j].id();
            if b == a && j == i {
                assert(next[all.len() as int].id() == x);
            } else {
                assert(holds(all, x));
                let j3 = choose|j3: int| 0 <= j3 < all.len() && (#[trigger] all[j3]).id() == x;
                assert(next[j3].id() == x);
            }
        }
    } else {
        assert forall|j: int| 0 <= j < all.len() implies collected_from(
            verts,
            g,
            #[trigger] all[j],
            a,
            i + 1,
        ) by {
            assert(collected_from(verts, g, all[j], a, i));
            let (b, j2) = choose|b: int, j2: int|
                0 <= b < verts.len() && (b < a || (b == a && j2 < i)) && 0 <= j2 < row(
                    g,
                    verts[b].id(),
                ).len() && #[trigger] row(g, verts[b].id())[j2] == all[j] && all[j].ends().0.id()
                    == verts[b].id();
            assert(row(g, verts[b].id())[j2] == all[j]);
        }
    }
}

/// A collection that has passed the row of vertex `a` stands at the start of
/// the next row.
proof fn lemma_collect_next_vertex(
    verts: Seq<Vertex>,
    g: Graph,
    all: Seq<Edge>,
    a: int,
)
    requires
        0 <= a < verts.len(),
        collected(verts, g, all, a, row(g, verts[a].id()).len() as int),
    ensures
        collected(verts, g, all, a + 1, 0),
{
    let i = row(g, verts[a].id()).len() as int;
    assert forall|j: int| 0 <= j < all.len() implies collected_from(
        verts,
        g,
        #[trigger] all[j],
        a + 1,
        0,
    ) by {
        assert(collected_from(verts, g, all[j], a, i));
        let (b, j2) = choose|b: int, j2: int|
            0 <= b < verts.len() && (b < a || (b == a && j2 < i)) && 0 <= j2 < row(
                g,
                verts[b].id(),
            ).len() && #[trigger] row(g, verts[b].id())[j2] == all[j] && all[j].ends().0.id()
                == verts[b].id();
        assert(row(g, verts[b].id())[j2] == all[j]);
    }
}

/// A collection over all rows holds every edge and weighs at each vertex as
/// much as the vertex has edges.
proof fn lemma_collect_done(verts: Seq<Vertex>, g: Graph, all: Seq<Edge>)
    requires
        well_formed(verts, g),
        collected(verts, g, all, verts.len() as int, 0),
    ensures
        forall|k: usize| weight(all, k) == degree(g, k),
        forall|j: int| 0 <= j < all.len() ==> occurs(g, #[trigger] all[j]),
        forall|id: usize| holds(all, id) <==> knows(g, id),
{
    assert forall|k: usize| weight(all, k) == degree(g, k) by {
        lemma_marked_all(row(g, k), ids_of(all));
        assert forall|i: int| 0 <= i < row(g, k).len() implies ids_of(all).contains(
            (#[trigger] row(g, k)[i]).id(),
        ) by {
            let e = row(g, k)[i];
            let a = e.ends().0.id();
            lemma_where_identity_lives(verts, g, k, i, a);
            assert(holds(row(g, a), e.id()));
            let i2 = choose|i2: int| 0 <= i2 < row(g, a).len() && (#[trigger] row(g, a)[i2]).id() == e.id();
            assert(same_ends(row(g, a)[i2], row(g, k)[i]));
            assert(g.contains_key(a));
            assert(listed(verts, a));
            let b = choose|b: int| 0 <= b < verts.len() && (#[trigger] verts[b]).id() == a;
            assert(row(g, verts[b].id())[i2].ends().0.id() == verts[b].id());
            assert(holds(all, row(g, verts[b].id())[i2].id()));
        }
    }
    assert forall|j: int| 0 <= j < all.len() implies occurs(g, #[trigger] all[j]) by {
        assert(collected_from(verts, g, all[j], verts.len() as int, 0));
        let (b, j2) = choose|b: int, j2: int|
            0 <= b < verts.len() && (b < verts.len() || (b == verts.len() && j2 < 0)) && 0 <= j2
                < row(g, verts[b].id()).len() && #[trigger] row(g, verts[b].id())[j2] == all[j]
                && all[j].ends().0.id() == verts[b].id();
        assert(row(g, verts[b].id())[j2] == all[j]);
    }
    assert forall|id: usize| holds(all, id) <==> knows(g, id) by {
        if holds(all, id) {
            let j = choose|j: int| 0 <= j < all.len() && (#[trigger] all[j]).id() == id;
            assert(occurs(g, all[j]));
            let (k, i) = choose|k: usize, i: int|
                0 <= i < row(g, k).len() && #[trigger] row(g, k)[i] == all[j];
            assert(row(g, k)[i].id() == id);
        }
        if knows(g, id) {
            let (k, i) = choose|k: usize, i: int|
                0 <= i < row(g, k).len() && (#[trigger] row(g, k)[i]).id() == id;
            lemma_marked_all(row(g, k), ids_of(all));
            assert(weight(all, k) == degree(g, k));
            assert(ids_of(all).contains(row(g, k)[i].id()));
        }
    }
}

/// The listed edges with the own edges of the first `i` places of the next
/// row are a collection.
proof fn lemma_collect_row(verts: Seq<Vertex>, g: Graph, a: int, i: int)
    requires
        well_formed(verts, g),
        0 <= a < verts.len(),
        0 <= i <= row(g, verts[a].id()).len(),
        collected(verts, g, every_edge(verts, g, a as nat), a, 0),
    ensures
        collected(
            verts,
            g,
            every_edge(verts, g, a as nat) + own(row(g, verts[a].id()).take(i), verts[a].id()),
            a,
            i,
        ),
    decreases i,
{
    let k = verts[a].id();
    let base = every_edge(verts, g, a as nat);
    let r = row(g, k);
    if i == 0 {
        assert(r.take(0) =~= Seq::<Edge>::empty());
        assert(base + own(r.take(0), k) =~= base);
    } else {
        lemma_collect_row(verts, g, a, i - 1);
        let all = base + own(r.take(i - 1), k);
        lemma_collect_step(verts, g, all, a, i - 1);
        assert(r.take(i).drop_last() =~= r.take(i - 1));
        assert(r.take(i).last() == r[i - 1]);
        if r[i - 1].ends().0.id() == k {
            assert(base + own(r.take(i), k) =~= all.push(r[i - 1]));
        } else {
            assert(base + own(r.take(i), k) =~= all);
        }
    }
}

/// The edges listed for the first `a` vertices are a collection.
proof fn lemma_collect_all(verts: Seq<Vertex>, g: Graph, a: nat)
    requires
        well_formed(verts, g),
        a <= verts.len(),
    ensures
        collected(verts, g, every_edge(verts, g, a), a as int, 0),
    decreases a,
{
    if a == 0 {
        let none = Seq::<Edge>::empty();
        assert(ids_of(none) =~= Set::<usize>::empty());
        assert forall|k: usize| weight(none, k) == marked(row(g, k), ids_of(none)) by {
            lemma_marked_none(row(g, k));
        }
    } else {
        lemma_collect_all(verts, g, (a - 1) as nat);
        let r = row(g, verts[a - 1].id());
        lemma_collect_row(verts, g, a - 1, r.len() as int);
        assert(r.take(r.len() as int) =~= r);
        lemma_collect_next_vertex(verts, g, every_edge(verts, g, a), a - 1);
    }
}

/// In a well-formed structure every edge is listed once: the listed edges
/// have as many ends at a vertex as its row has edges.
pub proof fn lemma_every_edge_weighs(verts: Seq<Vertex>, g: Graph)
    requires
        well_formed(verts, g),
    ensures
        forall|k: usize| weight(every_edge(verts, g, verts.len()), k) == degree(g, k),
{
    lemma_collect_all(verts, g, verts.len());
    lemma_collect_done(verts, g, every_edge(verts, g, verts.len()));
}

/// The planned duplicates make every degree even.
pub proof fn lemma_plan_evens_out(verts: Seq<Vertex>, g: Graph)
    requires
        well_formed(verts, g),
    ensures
        forall|k: usize| (degree(g, k) + weight(duplication_plan(verts, g), k)) % 2 == 0,
{
    let plan = duplication_plan(verts, g);
    lemma_plan_occurs(verts, g);
    if falls_back(verts, g) {
        lemma_every_edge_weighs(verts, g);
    } else {
        lemma_scan_makes_even(verts, g);
        assert forall|j: int| 0 <= j < plan.len() implies (#[trigger] plan[j]).ends().0.id()
            != plan[j].ends().1.id() by {
            lemma_occurring_edge_is_no_loop(verts, g, plan[j]);
        }
        assert forall|k: usize| (degree(g, k) + weight(plan, k)) % 2 == 0 by {
            lemma_register_all_degree(g, plan, k);
            assert(!is_odd(register_all(g, plan), k));
        }
    }
}

/// The sum of the degrees of the first `n` listed vertices.
pub open spec fn total_degree(verts: Seq<Vertex>, g: Graph, n: nat) -> nat
    decreases n,
{
    if n == 0 {
        0
    } else {
        total_degree(verts, g, (n - 1) as nat) + degree(g, verts[n - 1].id())
    }
}

/// A row has no more own edges than edges.
proof fn lemma_own_is_short(s: Seq<Edge>, k: usize)
    ensures
        own(s, k).len() <= s.len(),
    decreases s.len(),
{
    if s.len() > 0 {
        lemma_own_is_short(s.drop_last(), k);
    }
}

/// The scan chooses at most one edge for each vertex, and no more edges are
/// listed than the rows hold.
proof fn lemma_plan_lengths(verts: Seq<Vertex>, g: Graph, n: nat)
    ensures
        scan(verts, g, n).chosen.len() <= n,
        every_edge(verts, g, n).len() <= total_degree(verts, g, n),
    decreases n,
{
    if n > 0 {
        lemma_plan_lengths(verts, g, (n - 1) as nat);
        lemma_own_is_short(row(g, verts[n - 1].id()), verts[n - 1].id());
    }
}

/// The plan holds no more edges than there are listed vertices and edges in
/// their rows, so a generator with that many identities left has enough.
pub proof fn lemma_plan_is_bounded(verts: Seq<Vertex>, g: Graph)
    ensures
        duplication_plan(verts, g).len() <= verts.len() + total_degree(verts, g, verts.len()),
{
    lemma_plan_lengths(verts, g, verts.len());
}

/// The number of edges of a well-formed structure.
pub open spec fn edge_count(verts: Seq<Vertex>, g: Graph) -> nat {
    every_edge(verts, g, verts.len()).len()
}

/// Every edge of a well-formed structure is listed exactly once.
pub proof fn lemma_every_edge_once(verts: Seq<Vertex>, g: Graph)
    requires
        well_formed(verts, g),
    ensures
        distinct_edges(every_edge(verts, g, verts.len())),
        forall|id: usize| holds(every_edge(verts, g, verts.len()), id) <==> knows(g, id),
{
    lemma_collect_all(verts, g, verts.len());
    lemma_collect_done(verts, g, every_edge(verts, g, verts.len()));
}

} // verus!
