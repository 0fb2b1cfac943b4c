//! Facts about the model that the algorithms rest on.

use crate::geometry::{Edge, Vertex};
use crate::postman::model::{
    adjacent, copies, degree, distinct_edges, edge_sound, Graph, holds, id_set, ids_of, is_walk,
    knows, listed, marked, occurs, reachable, register, register_all, row, row_sound, same_ends,
    weight, well_formed,
};
use vstd::prelude::*;

verus! {

/// Registering an edge with two different endpoints appends it to the rows of
/// exactly those two.
pub proof fn lemma_register_row(g: Graph, d: Edge, k: usize)
    requires
        d.ends().0.id() != d.ends().1.id(),
    ensures
        row(register(g, d), k) == if d.touches(k) {
            row(g, k).push(d)
        } else {
            row(g, k)
        },
        register(g, d).contains_key(k) <==> g.contains_key(k) || d.touches(k),
{
}

/// In a well-formed structure an identity is registered with the two
/// endpoints of its edge and with no other vertex.
pub proof fn lemma_where_identity_lives(
    verts: Seq<Vertex>,
    g: Graph,
    k: usize,
    i: int,
    k2: usize,
)
    requires
        well_formed(verts, g),
        0 <= i < row(g, k).len(),
    ensures
        row(g, k)[i].ends().0.id() != row(g, k)[i].ends().1.id(),
        row(g, k)[i].touches(k),
        holds(row(g, k2), row(g, k)[i].id()) <==> row(g, k)[i].touches(k2),
{
    let e = row(g, k)[i];
    assert(row_sound(g, k));
    assert(edge_sound(g, k, e));
    if e.touches(k2) {
        if k2 == k {
            assert(row(g, k2)[i].id() == e.id());
        } else {
            assert(k2 == e.across(k).id());
        }
    }
    if holds(row(g, k2), e.id()) {
        let j = choose|j: int| 0 <= j < row(g, k2).len() && (#[trigger] row(g, k2)[j]).id() == e.id();
        let x = row(g, k2)[j];
        assert(row_sound(g, k2));
        assert(edge_sound(g, k2, x));
        assert(same_ends(row(g, k2)[j], row(g, k)[i]));
    }
}

/// A well-formed structure stays well-formed when it is given a second edge
/// between the endpoints of one that it has, under an identity that is new to
/// it.
pub proof fn lemma_register_keeps_well_formed(
    verts: Seq<Vertex>,
    g: Graph,
    e: Edge,
    d: Edge,
)
    requires
        well_formed(verts, g),
        occurs(g, e),
        d.ends() == e.ends(),
        !knows(g, d.id()),
    ensures
        well_formed(verts, register(g, d)),
{
    let g2 = register(g, d);
    let (k0, i0) = choose|k: usize, i: int| 0 <= i < row(g, k).len() && #[trigger] row(g, k)[i] == e;
    let a = d.ends().0.id();
    let b = d.ends().1.id();
    lemma_where_identity_lives(verts, g, k0, i0, a);
    lemma_where_identity_lives(verts, g, k0, i0, b);
    assert(holds(row(g, a), e.id()));
    assert(holds(row(g, b), e.id()));
    assert(g.contains_key(a) && g.contains_key(b));
    assert forall|k: usize| g2.contains_key(k) implies listed(verts, k) by {
        lemma_register_row(g, d, k);
    }
    assert forall|k: usize| row_sound(g2, k) by {
        lemma_register_row(g, d, k);
        assert(row_sound(g, k));
        assert forall|i: int| 0 <= i < row(g2, k).len() implies edge_sound(
            g2,
            k,
            #[trigger] row(g2, k)[i],
        ) by {
            let x = row(g2, k)[i];
            let far = x.across(k).id();
            lemma_register_row(g, d, far);
            if i < row(g, k).len() {
                assert(x == row(g, k)[i]);
                assert(edge_sound(g, k, x));
                let j = choose|j: int|
                    0 <= j < row(g, far).len() && (#[trigger] row(g, far)[j]).id() == x.id();
                assert(row(g2, far)[j].id() == x.id());
            } else {
                assert(x == d);
                assert(row(g2, far)[row(g, far).len() as int].id() == d.id());
            }
        }
        assert forall|i: int, j: int| 0 <= i < j < row(g2, k).len() implies row(g2, k)[i].id()
            != row(g2, k)[j].id() by {
            if j == row(g, k).len() {
                assert(row(g, k)[i].id() != d.id());
            }
        }
    }
    assert forall|k1: usize, i1: int, k2: usize, i2: int|
        0 <= i1 < row(g2, k1).len() && 0 <= i2 < row(g2, k2).len() && (#[trigger] row(
            g2,
            k1,
        )[i1]).id() == (#[trigger] row(g2, k2)[i2]).id() implies same_ends(
        row(g2, k1)[i1],
        row(g2, k2)[i2],
    ) by {
        lemma_register_row(g, d, k1);
        lemma_register_row(g, d, k2);
        if i1 < row(g, k1).len() {
            assert(row(g, k1)[i1].id() != d.id());
        }
        if i2 < row(g, k2).len() {
            assert(row(g, k2)[i2].id() != d.id());
        }
    }
}

/// Registering one more edge after a sequence of edges.
pub proof fn lemma_register_all_push(g: Graph, ds: Seq<Edge>, d: Edge)
    ensures
        register_all(g, ds.push(d)) == register(register_all(g, ds), d),
{
    assert(ds.push(d).drop_last() =~= ds);
}

/// Marking an identity that the sequence does not hold changes no count.
pub proof fn lemma_mark_absent(s: Seq<Edge>, marks: Set<usize>, x: usize)
    requires
        !holds(s, x),
    ensures
        marked(s, marks.insert(x)) == marked(s, marks),
    decreases s.len(),
{
    if s.len() > 0 {
        let t = s.drop_last();
        assert(s[s.len() - 1].id() != x);
        assert forall|j: int| 0 <= j < t.len() implies (#[trigger] t[j]).id() != x by {
            assert(s[j].id() != x);
        }
        lemma_mark_absent(t, marks, x);
    }
}

/// Marking a fresh identity that a sequence of distinct edges holds counts
/// one more.
pub proof fn lemma_mark_present(s: Seq<Edge>, marks: Set<usize>, x: usize)
    requires
        distinct_edges(s),
        holds(s, x),
        !marks.contains(x),
    ensures
        marked(s, marks.insert(x)) == marked(s, marks) + 1,
    decreases s.len(),
{
    let j = choose|j: int| 0 <= j < s.len() && (#[trigger] s[j]).id() == x;
    let t = s.drop_last();
    if s.last().id() == x {
        assert forall|i: int| 0 <= i < t.len() implies (#[trigger] t[i]).id() != x by {
            assert(s[i].id() != s[s.len() - 1].id());
        }
        lemma_mark_absent(t, marks, x);
    } else {
        assert(t[j].id() == x);
        assert(distinct_edges(t)) by {
            assert forall|i1: int, i2: int| 0 <= i1 < i2 < t.len() implies t[i1].id()
                != t[i2].id() by {
                assert(s[i1].id() != s[i2].id());
            }
        }
        lemma_mark_present(t, marks, x);
    }
}

/// The count of marked edges is the length exactly when every edge is marked,
/// and never more.
pub proof fn lemma_marked_all(s: Seq<Edge>, marks: Set<usize>)
    ensures
        marked(s, marks) <= s.len(),
        marked(s, marks) == s.len() <==> forall|i: int|
            0 <= i < s.len() ==> marks.contains((#[trigger] s[i]).id()),
    decreases s.len(),
{
    if s.len() > 0 {
        let t = s.drop_last();
        lemma_marked_all(t, marks);
        if marked(s, marks) == s.len() {
            assert forall|i: int| 0 <= i < s.len() implies marks.contains(
                (#[trigger] s[i]).id(),
            ) by {
                if i < t.len() {
                    assert(marks.contains(t[i].id()));
                }
            }
        }
        if forall|i: int| 0 <= i < s.len() ==> marks.contains((#[trigger] s[i]).id()) {
            assert forall|i: int| 0 <= i < t.len() implies marks.contains(
                (#[trigger] t[i]).id(),
            ) by {
                assert(marks.contains(s[i].id()));
            }
            assert(marks.contains(s[s.len() - 1].id()));
        }
    }
}

/// Without marks nothing is counted.
pub proof fn lemma_marked_none(s: Seq<Edge>)
    ensures
        marked(s, Set::empty()) == 0,
    decreases s.len(),
{
    if s.len() > 0 {
        lemma_marked_none(s.drop_last());
    }
}

/// Registering edges with two different endpoints each lengthens a row by the
/// number of their ends at its vertex.
pub proof fn lemma_register_all_degree(g: Graph, ds: Seq<Edge>, k: usize)
    requires
        forall|j: int| 0 <= j < ds.len() ==> (#[trigger] ds[j]).ends().0.id() != ds[j].ends().1.id(),
    ensures
        degree(register_all(g, ds), k) == degree(g, k) + weight(ds, k),
        row(g, k).is_prefix_of(row(register_all(g, ds), k)),
    decreases ds.len(),
{
    if ds.len() > 0 {
        let t = ds.drop_last();
        assert forall|j: int| 0 <= j < t.len() implies (#[trigger] t[j]).ends().0.id()
            != t[j].ends().1.id() by {
            assert(ds[j].ends().0.id() != ds[j].ends().1.id());
        }
        lemma_register_all_degree(g, t, k);
        assert(ds[ds.len() - 1].ends().0.id() != ds[ds.len() - 1].ends().1.id());
        lemma_register_row(register_all(g, t), ds.last(), k);
    }
}

/// Copies weigh the same as what they copy.
pub proof fn lemma_copies_weight(ds: Seq<Edge>, es: Seq<Edge>, k: usize)
    requires
        copies(ds, es),
    ensures
        weight(ds, k) == weight(es, k),
    decreases ds.len(),
{
    if ds.len() > 0 {
        let t = ds.drop_last();
        let u = es.drop_last();
        assert forall|j: int| 0 <= j < t.len() implies (#[trigger] t[j]).ends() == u[j].ends() by {
            assert(ds[j].ends() == es[j].ends());
        }
        lemma_copies_weight(t, u, k);
        assert(ds[ds.len() - 1].ends() == es[ds.len() - 1].ends());
    }
}

/// An edge that occurs in a well-formed structure has two different endpoints.
pub proof fn lemma_occurring_edge_is_no_loop(verts: Seq<Vertex>, g: Graph, e: Edge)
    requires
        well_formed(verts, g),
        occurs(g, e),
    ensures
        e.ends().0.id() != e.ends().1.id(),
        g.contains_key(e.ends().0.id()),
        g.contains_key(e.ends().1.id()),
        holds(row(g, e.ends().0.id()), e.id()),
        holds(row(g, e.ends().1.id()), e.id()),
{
    let (k, i) = choose|k: usize, i: int| 0 <= i < row(g, k).len() && #[trigger] row(g, k)[i] == e;
    lemma_where_identity_lives(verts, g, k, i, e.ends().0.id());
    lemma_where_identity_lives(verts, g, k, i, e.ends().1.id());
}

/// There are no more listed identities than listed vertices.
pub proof fn lemma_id_set_finite(verts: Seq<Vertex>)
    ensures
        id_set(verts).finite(),
        id_set(verts).len() <= verts.len(),
{
    let ids = verts.map_values(|v: Vertex| v.id());
    vstd::seq_lib::seq_to_set_is_finite(ids);
    ids.lemma_cardinality_of_set();
    assert(id_set(verts) =~= ids.to_set()) by {
        assert forall|k: usize| id_set(verts).contains(k) implies ids.to_set().contains(k) by {
            let i = choose|i: int| 0 <= i < verts.len() && (#[trigger] verts[i]).id() == k;
            assert(ids[i] == k);
        }
        assert forall|k: usize| ids.to_set().contains(k) implies id_set(verts).contains(k) by {
            let i = choose|i: int| 0 <= i < ids.len() && ids[i] == k;
            assert(verts[i].id() == k);
        }
    }
}

/// Every vertex is reachable from itself.
pub proof fn lemma_reachable_self(g: Graph, skip: Set<usize>, a: usize)
    ensures
        reachable(g, skip, a, a),
{
    let p = seq![a];
    assert(is_walk(g, skip, p));
    assert(p[0] == a && p.last() == a);
}

/// A walk can be continued along one more edge.
pub proof fn lemma_reachable_step(
    g: Graph,
    skip: Set<usize>,
    a: usize,
    b: usize,
    c: usize,
)
    requires
        reachable(g, skip, a, b),
        adjacent(g, skip, b, c),
    ensures
        reachable(g, skip, a, c),
{
    let p = choose|p: Seq<usize>| #[trigger] is_walk(g, skip, p) && p[0] == a && p.last() == b;
    let q = p.push(c);
    assert forall|i: int| 0 <= i < q.len() - 1 implies adjacent(g, skip, #[trigger] q[i], q[i + 1]) by {
        if i < p.len() - 1 {
            assert(adjacent(g, skip, p[i], p[i + 1]));
        }
    }
    assert(is_walk(g, skip, q));
    assert(q[0] == a && q.last() == c);
}

/// A set of vertices that holds `a` and, with each vertex, its neighbours
/// holds every vertex that a walk reaches from `a`.
pub proof fn lemma_closed_set_holds_walk(
    g: Graph,
    skip: Set<usize>,
    s: Set<usize>,
    p: Seq<usize>,
)
    requires
        is_walk(g, skip, p),
        s.contains(p[0]),
        forall|v: usize, w: usize| s.contains(v) && #[trigger] adjacent(g, skip, v, w) ==> s.contains(w),
    ensures
        s.contains(p.last()),
    decreases p.len(),
{
    if p.len() > 1 {
        let q = p.drop_last();
        assert forall|i: int| 0 <= i < q.len() - 1 implies adjacent(g, skip, #[trigger] q[i], q[i + 1]) by {
            assert(adjacent(g, skip, p[i], p[i + 1]));
        }
        lemma_closed_set_holds_walk(g, skip, s, q);
        assert(adjacent(g, skip, p[p.len() - 2], p[p.len() - 2 + 1]));
    }
}

/// An edge in a row after registration was in the row before or is one of
/// the registered edges.
pub proof fn lemma_register_all_rows(g: Graph, ds: Seq<Edge>, k: usize, i: int)
    requires
        forall|j: int| 0 <= j < ds.len() ==> (#[trigger] ds[j]).ends().0.id() != ds[j].ends().1.id(),
        0 <= i < row(register_all(g, ds), k).len(),
    ensures
        (i < row(g, k).len() && row(register_all(g, ds), k)[i] == row(g, k)[i]) || (exists|j: int|
            0 <= j < ds.len() && #[trigger] ds[j] == row(register_all(g, ds), k)[i]),
    decreases ds.len(),
{
    if ds.len() > 0 {
        let t = ds.drop_last();
        let h = register_all(g, t);
        assert(ds[ds.len() - 1].ends().0.id() != ds[ds.len() - 1].ends().1.id());
        lemma_register_row(h, ds.last(), k);
        if i < row(h, k).len() {
            assert forall|j: int| 0 <= j < t.len() implies (#[trigger] t[j]).ends().0.id()
                != t[j].ends().1.id() by {
                assert(ds[j].ends().0.id() != ds[j].ends().1.id());
            }
            lemma_register_all_rows(g, t, k, i);
            if !(i < row(g, k).len() && row(h, k)[i] == row(g, k)[i]) {
                let j = choose|j: int| 0 <= j < t.len() && #[trigger] t[j] == row(h, k)[i];
                assert(ds[j] == row(register_all(g, ds), k)[i]);
            }
        } else {
            assert(ds[ds.len() - 1] == row(register_all(g, ds), k)[i]);
        }
    }
}

/// Registering edges adds their identities to those that the structure knows
/// and keeps every edge that was there.
pub proof fn lemma_register_all_knows(g: Graph, ds: Seq<Edge>)
    requires
        forall|j: int| 0 <= j < ds.len() ==> (#[trigger] ds[j]).ends().0.id() != ds[j].ends().1.id(),
    ensures
        forall|id: usize| knows(register_all(g, ds), id) ==> knows(g, id) || holds(ds, id),
        forall|e: Edge| occurs(g, e) ==> occurs(register_all(g, ds), e),
{
    let g2 = register_all(g, ds);
    assert forall|id: usize| knows(g2, id) implies knows(g, id) || holds(ds, id) by {
        let (k, i) = choose|k: usize, i: int|
            0 <= i < row(g2, k).len() && (#[trigger] row(g2, k)[i]).id() == id;
        lemma_register_all_rows(g, ds, k, i);
        if i < row(g, k).len() && row(g2, k)[i] == row(g, k)[i] {
            assert(row(g, k)[i].id() == id);
        } else {
            let j = choose|j: int| 0 <= j < ds.len() && #[trigger] ds[j] == row(g2, k)[i];
            assert(ds[j].id() == id);
        }
    }
    assert forall|e: Edge| occurs(g, e) implies occurs(g2, e) by {
        let (k, i) = choose|k: usize, i: int| 0 <= i < row(g, k).len() && #[trigger] row(g, k)[i] == e;
        lemma_register_all_degree(g, ds, k);
        assert(row(g2, k)[i] == e);
    }
}

/// A well-formed structure stays well-formed when it is given copies of edges
/// that it has, under identities that are new to it and differ from each
/// other.
pub proof fn lemma_register_all_keeps_well_formed(
    verts: Seq<Vertex>,
    g: Graph,
    ds: Seq<Edge>,
    plan: Seq<Edge>,
)
    requires
        well_formed(verts, g),
        copies(ds, plan),
        forall|j: int| 0 <= j < plan.len() ==> occurs(g, #[trigger] plan[j]),
        distinct_edges(ds),
        forall|j: int| 0 <= j < ds.len() ==> !knows(g, (#[trigger] ds[j]).id()),
    ensures
        well_formed(verts, register_all(g, ds)),
    decreases ds.len(),
{
    if ds.len() > 0 {
        let t = ds.drop_last();
        let u = plan.drop_last();
        let d = ds.last();
        let e = plan.last();
        assert(copies(t, u)) by {
            assert forall|j: int| 0 <= j < t.len() implies (#[trigger] t[j]).ends() == u[j].ends() by {
                assert(ds[j].ends() == plan[j].ends());
            }
        }
        assert forall|j: int| 0 <= j < u.len() implies occurs(g, #[trigger] u[j]) by {
            assert(occurs(g, plan[j]));
        }
        assert(distinct_edges(t)) by {
            assert forall|i1: int, i2: int| 0 <= i1 < i2 < t.len() implies t[i1].id() != t[i2].id() by {
                assert(ds[i1].id() != ds[i2].id());
            }
        }
        assert forall|j: int| 0 <= j < t.len() implies !knows(g, (#[trigger] t[j]).id()) by {
            assert(!knows(g, ds[j].id()));
        }
        lemma_register_all_keeps_well_formed(verts, g, t, u);
        let h = register_all(g, t);
        assert forall|j: int| 0 <= j < t.len() implies (#[trigger] t[j]).ends().0.id()
            != t[j].ends().1.id() by {
            assert(occurs(g, u[j]));
            lemma_occurring_edge_is_no_loop(verts, g, u[j]);
            assert(t[j].ends() == u[j].ends());
        }
        lemma_register_all_knows(g, t);
        assert(occurs(g, plan[plan.len() - 1]));
        assert(occurs(h, e));
        assert(ds[ds.len() - 1].ends() == plan[ds.len() - 1].ends());
        assert(!knows(g, ds[ds.len() - 1].id()));
        if holds(t, d.id()) {
            let j = choose|j: int| 0 <= j < t.len() && (#[trigger] t[j]).id() == d.id();
            assert(ds[j].id() != ds[ds.len() - 1].id());
        }
        assert(!knows(h, d.id()));
        lemma_register_keeps_well_formed(verts, h, e, d);
    }
}

/// A sequence of distinct edges has as many identities as edges.
pub proof fn lemma_distinct_edges_count(s: Seq<Edge>)
    requires
        distinct_edges(s),
    ensures
        ids_of(s).finite(),
        ids_of(s).len() == s.len(),
    decreases s.len(),
{
    if s.len() == 0 {
        assert(ids_of(s) =~= Set::<usize>::empty());
    } else {
        let t = s.drop_last();
        let x = s.last().id();
        assert(distinct_edges(t)) by {
            assert forall|i: int, j: int| 0 <= i < j < t.len() implies t[i].id() != t[j].id() by {
                assert(s[i].id() != s[j].id());
            }
        }
        lemma_distinct_edges_count(t);
        assert(!ids_of(t).contains(x)) by {
            if holds(t, x) {
                let j = choose|j: int| 0 <= j < t.len() && (#[trigger] t[j]).id() == x;
                assert(s[j].id() != s[s.len() - 1].id());
            }
        }
        assert(ids_of(s) =~= ids_of(t).insert(x)) by {
            assert forall|y: usize| ids_of(s).contains(y) implies ids_of(t).insert(x).contains(
                y,
            ) by {
                let j = choose|j: int| 0 <= j < s.len() && (#[trigger] s[j]).id() == y;
                if j < t.len() {
                    assert(t[j].id() == y);
                }
            }
            assert forall|y: usize| ids_of(t).insert(x).contains(y) implies ids_of(s).contains(
                y,
            ) by {
                if y == x {
                    assert(s[s.len() - 1].id() == y);
                } else {
                    let j = choose|j: int| 0 <= j < t.len() && (#[trigger] t[j]).id() == y;
                    assert(s[j].id() == y);
                }
            }
        }
    }
}

/// Two sequences of distinct edges with the same identities are equally long.
pub proof fn lemma_same_ids_same_length(s: Seq<Edge>, t: Seq<Edge>)
    requires
        distinct_edges(s),
        distinct_edges(t),
        forall|id: usize| holds(s, id) <==> holds(t, id),
    ensures
        s.len() == t.len(),
{
    lemma_distinct_edges_count(s);
    lemma_distinct_edges_count(t);
    assert(ids_of(s) =~= ids_of(t));
}

/// Every registered edge stands in the structure afterwards.
pub proof fn lemma_registered_edges_occur(g: Graph, ds: Seq<Edge>)
    requires
        forall|j: int| 0 <= j < ds.len() ==> (#[trigger] ds[j]).ends().0.id() != ds[j].ends().1.id(),
    ensures
        forall|j: int| 0 <= j < ds.len() ==> occurs(register_all(g, ds), #[trigger] ds[j]),
    decreases ds.len(),
{
    if ds.len() > 0 {
        let t = ds.drop_last();
        let h = register_all(g, t);
        let d = ds.last();
        assert forall|j: int| 0 <= j < t.len() implies (#[trigger] t[j]).ends().0.id()
            != t[j].ends().1.id() by {
            assert(ds[j].ends().0.id() != ds[j].ends().1.id());
        }
        lemma_registered_edges_occur(g, t);
        assert(ds[ds.len() - 1].ends().0.id() != ds[ds.len() - 1].ends().1.id());
        let a = d.ends().0.id();
        lemma_register_row(h, d, a);
        assert forall|j: int| 0 <= j < ds.len() implies occurs(
            register_all(g, ds),
            #[trigger] ds[j],
        ) by {
            if j < t.len() {
                assert(occurs(h, t[j]));
                let (k, i) = choose|k: usize, i: int|
                    0 <= i < row(h, k).len() && #[trigger] row(h, k)[i] == t[j];
                lemma_register_row(h, d, k);
                assert(row(register_all(g, ds), k)[i] == ds[j]);
            } else {
                assert(row(register_all(g, ds), a)[row(h, a).len() as int] == ds[j]);
            }
        }
    }
}

} // verus!
