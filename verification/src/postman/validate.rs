//! Checking that a vertex list and an adjacency structure describe a
//! multigraph.

use crate::geometry::{Edge, Vertex};
use crate::postman::model::{
    distinct_edges, distinct_ids, edge_sound, Graph, holds, identities_agree, listed, row,
    row_sound, rows, same_ends, well_formed,
};
use crate::prelude::AdjList;
use std::collections::{BTreeMap, BTreeSet};
use vstd::prelude::*;

verus! {

/// Whether no two listed vertices share an identity.
fn has_distinct_ids(vertices: &Vec<Vertex>) -> (r: bool)
    ensures
        r == distinct_ids(vertices@),
{
    let mut seen: BTreeSet<usize> = BTreeSet::new();
    let mut i: usize = 0;
    while i < vertices.len()
        invariant
            i <= vertices.len(),
            forall|a: int, b: int| 0 <= a < b < i ==> vertices@[a].id() != vertices@[b].id(),
            forall|k: usize|
                seen@.contains(k) <==> exists|a: int|
                    0 <= a < i && (#[trigger] vertices@[a]).id() == k,
        decreases vertices.len() - i,
    {
        let k: usize = vertices[i].id();
        if seen.contains(&k) {
            proof {
                let a = choose|a: int| 0 <= a < i && (#[trigger] vertices@[a]).id() == k;
                assert(vertices@[a].id() == vertices@[i as int].id());
            }
            return false;
        }
        let ghost before = seen@;
        seen.insert(k);
        proof {
            assert forall|k2: usize| seen@.contains(k2) implies exists|a: int|
                0 <= a < i + 1 && (#[trigger] vertices@[a]).id() == k2 by {
                if k2 == k {
                    assert(vertices@[i as int].id() == k2);
                } else {
                    assert(before.contains(k2));
                    let a = choose|a: int| 0 <= a < i && (#[trigger] vertices@[a]).id() == k2;
                    assert(vertices@[a].id() == k2);
                }
            }
            assert forall|a: int, b: int| 0 <= a < b < i + 1 implies vertices@[a].id()
                != vertices@[b].id() by {
                if b == i && vertices@[a].id() == k {
                    assert(before.contains(k));
                }
            }
        }
        i += 1;
    }
    true
}

/// Whether every row belongs to a listed vertex. The listed identities are
/// distinct, so they cover the keys exactly when as many of them are keys as
/// there are keys.
fn keys_are_listed(vertices: &Vec<Vertex>, map: &AdjList) -> (r: bool)
    requires
        distinct_ids(vertices@),
    ensures
        r == (forall|k: usize| rows(map).contains_key(k) ==> listed(vertices@, k)),
{
    let mut count: usize = 0;
    let ghost mut hits: Set<usize> = Set::empty();
    let mut i: usize = 0;
    while i < vertices.len()
        invariant
            i <= vertices.len(),
            distinct_ids(vertices@),
            hits.finite(),
            hits.len() == count,
            count <= i,
            forall|k: usize|
                hits.contains(k) <==> map@.contains_key(k) && exists|a: int|
                    0 <= a < i && (#[trigger] vertices@[a]).id() == k,
        decreases vertices.len() - i,
    {
        let k: usize = vertices[i].id();
        if map.contains_key(&k) {
            proof {
                if hits.contains(k) {
                    let a = choose|a: int| 0 <= a < i && (#[trigger] vertices@[a]).id() == k;
                    assert(vertices@[a].id() == vertices@[i as int].id());
                }
                let ghost before = hits;
                hits = hits.insert(k);
                assert forall|k2: usize| hits.contains(k2) implies map@.contains_key(k2) && exists|
                    a: int,
                | 0 <= a < i + 1 && (#[trigger] vertices@[a]).id() == k2 by {
                    if k2 == k {
                        assert(vertices@[i as int].id() == k2);
                    } else {
                        assert(before.contains(k2));
                        let a = choose|a: int| 0 <= a < i && (#[trigger] vertices@[a]).id() == k2;
                        assert(vertices@[a].id() == k2);
                    }
                }
            }
            count += 1;
        }
        i += 1;
    }
    proof {
        assert(hits.subset_of(map@.dom()));
        if count == map.len() {
            vstd::set_lib::lemma_subset_equality(hits, map@.dom());
            assert forall|k: usize| rows(map).contains_key(k) implies listed(vertices@, k) by {
                assert(hits.contains(k));
            }
        } else {
            if forall|k: usize| rows(map).contains_key(k) ==> listed(vertices@, k) {
                assert forall|k: usize| map@.dom().contains(k) implies hits.contains(k) by {
                    assert(rows(map).contains_key(k));
                    assert(listed(vertices@, k));
                }
                assert(hits =~= map@.dom());
            }
        }
    }
    count == map.len()
}

/// The listed vertex at position `b` has identity `k`, and its row holds `id`
/// at position `j`, which lies before position `i` of vertex `a`.
spec fn stands_before(
    verts: Seq<Vertex>,
    g: Graph,
    k: usize,
    id: usize,
    a: int,
    i: int,
    b: int,
    j: int,
) -> bool {
    &&& 0 <= b < verts.len()
    &&& b < a || (b == a && j < i)
    &&& verts[b].id() == k
    &&& 0 <= j < row(g, k).len()
    &&& row(g, k)[j].id() == id
}

/// The pairs are those of a vertex and an identity in its row, as far as the
/// rows lie before position `i` of vertex `a`.
spec fn indexed(
    verts: Seq<Vertex>,
    g: Graph,
    pairs: Set<(usize, usize)>,
    a: int,
    i: int,
) -> bool {
    forall|k: usize, id: usize| #[trigger]
        pairs.contains((k, id)) <==> exists|b: int, j: int|
            stands_before(verts, g, k, id, a, i, b, j)
}

/// Every edge in the row of `k` ends at `k` on exactly one side, and none
/// occurs twice.
spec fn tidy(g: Graph, k: usize) -> bool {
    &&& forall|j: int| 0 <= j < row(g, k).len() ==> (#[trigger] row(g, k)[j]).touches(k)
    &&& distinct_edges(row(g, k))
}

/// Collects the pairs of a vertex and an identity in its row, unless some
/// edge stands in a row where it does not end, or twice in one row.
fn index_rows(vertices: &Vec<Vertex>, map: &AdjList) -> (r: Option<BTreeSet<(usize, usize)>>)
    requires
        distinct_ids(vertices@),
        forall|k: usize| rows(map).contains_key(k) ==> listed(vertices@, k),
    ensures
        match r {
            Some(pairs) => {
                &&& forall|k: usize| tidy(rows(map), k)
                &&& forall|k: usize, id: usize| #[trigger]
                    pairs@.contains((k, id)) <==> holds(row(rows(map), k), id)
            },
            None => !(forall|k: usize| row_sound(rows(map), k)),
        },
{
    let ghost g = rows(map);
    let mut pairs: BTreeSet<(usize, usize)> = BTreeSet::new();
    let mut a: usize = 0;
    while a < vertices.len()
        invariant
            a <= vertices.len(),
            g == rows(map),
            distinct_ids(vertices@),
            indexed(vertices@, g, pairs@, a as int, 0),
            forall|b: int| 0 <= b < a ==> tidy(g, (#[trigger] vertices@[b]).id()),
        decreases vertices.len() - a,
    {
        let v = &vertices[a];
        let k: usize = v.id();
        match map.get(&k) {
            None => {
                assert(row(g, k).len() == 0);
            },
            Some(edges) => {
                assert(row(g, k) == edges@);
                let mut i: usize = 0;
                while i < edges.len()
                    invariant
                        i <= edges.len(),
                        a < vertices.len(),
                        g == rows(map),
                        distinct_ids(vertices@),
                        k == vertices@[a as int].id(),
                        *v == vertices@[a as int],
                        row(g, k) == edges@,
                        indexed(vertices@, g, pairs@, a as int, i as int),
                        forall|j: int| 0 <= j < i ==> (#[trigger] edges@[j]).touches(k),
                        forall|j1: int, j2: int|
                            0 <= j1 < j2 < i ==> edges@[j1].id() != edges@[j2].id(),
                    decreases edges.len() - i,
                {
                    let e = &edges[i];
                    let id: usize = e.id();
                    if e.other_vertex(*v).is_none() {
                        proof {
                            assert(!edge_sound(g, k, row(g, k)[i as int]));
                            assert(!row_sound(g, k));
                        }
                        return None;
                    }
                    let ghost before = pairs@;
                    let fresh = pairs.insert((k, id));
                    if !fresh {
                        proof {
                            let (b, j) = choose|b: int, j: int|
                                stands_before(vertices@, g, k, id, a as int, i as int, b, j);
                            assert(vertices@[b].id() == vertices@[a as int].id());
                            assert(b == a);
                            assert(row(g, k)[j].id() == row(g, k)[i as int].id());
                            assert(!distinct_edges(row(g, k)));
                            assert(!row_sound(g, k));
                        }
                        return None;
                    }
                    proof {
                        assert forall|j: int| 0 <= j < i implies edges@[j].id() != id by {
                            if edges@[j].id() == id {
                                assert(stands_before(
                                    vertices@,
                                    g,
                                    k,
                                    id,
                                    a as int,
                                    i as int,
                                    a as int,
                                    j,
                                ));
                            }
                        }
                        let i1: int = i + 1;
                        assert forall|k2: usize, id2: usize| #[trigger]
                            pairs@.contains((k2, id2)) <==> exists|b: int, j: int|
                                stands_before(vertices@, g, k2, id2, a as int, i1, b, j) by {
                            if pairs@.contains((k2, id2)) {
                                if (k2, id2) == (k, id) {
                                    assert(stands_before(
                                        vertices@,
                                        g,
                                        k2,
                                        id2,
                                        a as int,
                                        i1,
                                        a as int,
                                        i as int,
                                    ));
                                } else {
                                    assert(before.contains((k2, id2)));
                                    let (b, j) = choose|b: int, j: int|
                                        stands_before(
                                            vertices@,
                                            g,
                                            k2,
                                            id2,
                                            a as int,
                                            i as int,
                                            b,
                                            j,
                                        );
                                    assert(stands_before(
                                        vertices@,
                                        g,
                                        k2,
                                        id2,
                                        a as int,
                                        i1,
                                        b,
                                        j,
                                    ));
                                }
                            }
                            if exists|b: int, j: int|
                                stands_before(vertices@, g, k2, id2, a as int, i1, b, j) {
                                let (b, j) = choose|b: int, j: int|
                                    stands_before(vertices@, g, k2, id2, a as int, i1, b, j);
                                if b == a && j == i {
                                } else {
                                    assert(stands_before(
                                        vertices@,
                                        g,
                                        k2,
                                        id2,
                                        a as int,
                                        i as int,
                                        b,
                                        j,
                                    ));
                                    assert(before.contains((k2, id2)));
                                }
                            }
                        }
                    }
                    i += 1;
                }
            },
        }
        proof {
            let n = row(g, k).len() as int;
            let a1: int = a + 1;
            assert forall|k2: usize, id2: usize| #[trigger]
                pairs@.contains((k2, id2)) <==> exists|b: int, j: int|
                    stands_before(vertices@, g, k2, id2, a1, 0, b, j) by {
                if pairs@.contains((k2, id2)) {
                    let (b, j) = choose|b: int, j: int|
                        stands_before(vertices@, g, k2, id2, a as int, n, b, j);
                    assert(stands_before(vertices@, g, k2, id2, a1, 0, b, j));
                }
                if exists|b: int, j: int| stands_before(vertices@, g, k2, id2, a1, 0, b, j) {
                    let (b, j) = choose|b: int, j: int|
                        stands_before(vertices@, g, k2, id2, a1, 0, b, j);
                    assert(stands_before(vertices@, g, k2, id2, a as int, n, b, j));
                }
            }
            assert(tidy(g, vertices@[a as int].id()));
        }
        a += 1;
    }
    proof {
        let n = vertices@.len() as int;
        assert forall|k: usize| tidy(g, k) by {
            if g.contains_key(k) {
                assert(listed(vertices@, k));
                let b = choose|b: int| 0 <= b < n && (#[trigger] vertices@[b]).id() == k;
                assert(tidy(g, vertices@[b].id()));
            }
        }
        assert forall|k: usize, id: usize| #[trigger]
            pairs@.contains((k, id)) <==> holds(row(g, k), id) by {
            if pairs@.contains((k, id)) {
                let (b, j) = choose|b: int, j: int| stands_before(vertices@, g, k, id, n, 0, b, j);
                assert(row(g, k)[j].id() == id);
            }
            if holds(row(g, k), id) {
                let j = choose|j: int| 0 <= j < row(g, k).len() && (#[trigger] row(g, k)[j]).id() == id;
                assert(g.contains_key(k));
                assert(listed(vertices@, k));
                let b = choose|b: int| 0 <= b < n && (#[trigger] vertices@[b]).id() == k;
                assert(stands_before(vertices@, g, k, id, n, 0, b, j));
            }
        }
    }
    Some(pairs)
}

/// Whether every edge is registered with its other endpoint too.
fn rows_are_registered(vertices: &Vec<Vertex>, map: &AdjList, pairs: &BTreeSet<(usize, usize)>) -> (r:
    bool)
    requires
        forall|k: usize| rows(map).contains_key(k) ==> listed(vertices@, k),
        forall|k: usize| tidy(rows(map), k),
        forall|k: usize, id: usize| #[trigger]
            pairs@.contains((k, id)) <==> holds(row(rows(map), k), id),
    ensures
        r == (forall|k: usize| row_sound(rows(map), k)),
{
    let ghost g = rows(map);
    let mut a: usize = 0;
    while a < vertices.len()
        invariant
            a <= vertices.len(),
            g == rows(map),
            forall|k: usize| tidy(g, k),
            forall|k: usize, id: usize| #[trigger] pairs@.contains((k, id)) <==> holds(row(g, k), id),
            forall|b: int| 0 <= b < a ==> row_sound(g, (#[trigger] vertices@[b]).id()),
        decreases vertices.len() - a,
    {
        let v = &vertices[a];
        let k: usize = v.id();
        match map.get(&k) {
            None => {
                assert(row(g, k).len() == 0);
            },
            Some(edges) => {
                assert(row(g, k) == edges@);
                let mut i: usize = 0;
                while i < edges.len()
                    invariant
                        i <= edges.len(),
                        g == rows(map),
                        k == v.id(),
                        row(g, k) == edges@,
                        forall|k2: usize| tidy(g, k2),
                        forall|k2: usize, id: usize| #[trigger]
                            pairs@.contains((k2, id)) <==> holds(row(g, k2), id),
                        forall|j: int| 0 <= j < i ==> edge_sound(g, k, #[trigger] edges@[j]),
                    decreases edges.len() - i,
                {
                    let e = &edges[i];
                    proof {
                        assert(tidy(g, k));
                        assert(row(g, k)[i as int].touches(k));
                    }
                    let far: usize = e.other_vertex(*v).unwrap().id();
                    if !pairs.contains(&(far, e.id())) {
                        proof {
                            assert(!edge_sound(g, k, row(g, k)[i as int]));
                            assert(!row_sound(g, k));
                        }
                        return false;
                    }
                    i += 1;
                }
            },
        }
        proof {
            assert(tidy(g, k));
        }
        a += 1;
    }
    proof {
        assert forall|k: usize| row_sound(g, k) by {
            assert(tidy(g, k));
            if g.contains_key(k) {
                assert(listed(vertices@, k));
                let b = choose|b: int|
                    0 <= b < vertices@.len() && (#[trigger] vertices@[b]).id() == k;
                assert(row_sound(g, vertices@[b].id()));
            }
        }
    }
    true
}

/// Whether every edge of every row ends at the row's vertex on exactly one
/// side, is registered with its other endpoint too, and occurs once in its
/// row.
fn rows_are_sound(vertices: &Vec<Vertex>, map: &AdjList) -> (r: bool)
    requires
        distinct_ids(vertices@),
        forall|k: usize| rows(map).contains_key(k) ==> listed(vertices@, k),
    ensures
        r == (forall|k: usize| row_sound(rows(map), k)),
{
    match index_rows(vertices, map) {
        Some(pairs) => rows_are_registered(vertices, map, &pairs),
        None => false,
    }
}

/// The endpoints that the table records for the identity of `e` are those of `e`.
spec fn recorded(table: Map<usize, (usize, usize)>, e: Edge) -> bool {
    table.contains_key(e.id()) && table[e.id()] == (e.ends().0.id(), e.ends().1.id())
}

/// Every entry of the table stems from an edge of the structure.
spec fn grounded(
    table: Map<usize, (usize, usize)>,
    origin: Map<usize, (usize, int)>,
    g: Graph,
) -> bool {
    forall|id: usize| #[trigger]
        table.contains_key(id) ==> {
            let (k, i) = origin[id];
            &&& 0 <= i < row(g, k).len()
            &&& row(g, k)[i].id() == id
            &&& recorded(table, row(g, k)[i])
        }
}

/// Whether an identity stands for the same pair of endpoints wherever it
/// occurs. A table keeps the endpoints under which each identity was first
/// seen.
fn identities_are_consistent(vertices: &Vec<Vertex>, map: &AdjList) -> (r: bool)
    requires
        forall|k: usize| rows(map).contains_key(k) ==> listed(vertices@, k),
    ensures
        r == identities_agree(rows(map)),
{
    let ghost g = rows(map);
    let mut table: BTreeMap<usize, (usize, usize)> = BTreeMap::new();
    let ghost mut origin: Map<usize, (usize, int)> = Map::empty();
    let mut a: usize = 0;
    while a < vertices.len()
        invariant
            a <= vertices.len(),
            g == rows(map),
            grounded(table@, origin, g),
            forall|b: int, i: int|
                0 <= b < a && 0 <= i < row(g, vertices@[b].id()).len() ==> recorded(
                    table@,
                    #[trigger] row(g, vertices@[b].id())[i],
                ),
        decreases vertices.len() - a,
    {
        let k: usize = vertices[a].id();
        match map.get(&k) {
            None => {},
            Some(edges) => {
                assert(row(g, k) == edges@);
                let mut i: usize = 0;
                while i < edges.len()
                    invariant
                        i <= edges.len(),
                        a < vertices.len(),
                        g == rows(map),
                        k == vertices@[a as int].id(),
                        row(g, k) == edges@,
                        grounded(table@, origin, g),
                        forall|b: int, i2: int|
                            0 <= b < a && 0 <= i2 < row(g, vertices@[b].id()).len() ==> recorded(
                                table@,
                                #[trigger] row(g, vertices@[b].id())[i2],
                            ),
                        forall|i2: int| 0 <= i2 < i ==> recorded(table@, #[trigger] edges@[i2]),
                    decreases edges.len() - i,
                {
                    let e = &edges[i];
                    let id: usize = e.id();
                    let (p, q) = e.vertices();
                    let ends: (usize, usize) = (p.id(), q.id());
                    let known = match table.get(&id) {
                        None => None,
                        Some(pair) => Some(*pair),
                    };
                    match known {
                        Some(pair) => {
                            if pair.0 != ends.0 || pair.1 != ends.1 {
                                proof {
                                    let (k1, i1) = origin[id];
                                    assert(recorded(table@, row(g, k1)[i1]));
                                    assert(row(g, k)[i as int].id() == row(g, k1)[i1].id());
                                    assert(!same_ends(row(g, k1)[i1], row(g, k)[i as int]));
                                }
                                return false;
                            }
                        },
                        None => {
                            let ghost before = table@;
                            table.insert(id, ends);
                            proof {
                                origin = origin.insert(id, (k, i as int));
                                assert forall|id2: usize| #[trigger]
                                    table@.contains_key(id2) implies {
                                    let (k2, j2) = origin[id2];
                                    &&& 0 <= j2 < row(g, k2).len()
                                    &&& row(g, k2)[j2].id() == id2
                                    &&& recorded(table@, row(g, k2)[j2])
                                } by {
                                    if id2 != id {
                                        assert(before.contains_key(id2));
                                    }
                                }
                                assert forall|b: int, i2: int|
                                    0 <= b < a && 0 <= i2 < row(
                                        g,
                                        vertices@[b].id(),
                                    ).len() implies recorded(
                                    table@,
                                    #[trigger] row(g, vertices@[b].id())[i2],
                                ) by {
                                    assert(recorded(before, row(g, vertices@[b].id())[i2]));
                                }
                                assert forall|i2: int| 0 <= i2 < i implies recorded(
                                    table@,
                                    #[trigger] edges@[i2],
                                ) by {
                                    assert(recorded(before, edges@[i2]));
                                }
                            }
                        },
                    }
                    i += 1;
                }
            },
        }
        a += 1;
    }
    proof {
        assert forall|k1: usize, i1: int, k2: usize, i2: int|
            0 <= i1 < row(g, k1).len() && 0 <= i2 < row(g, k2).len() && (#[trigger] row(
                g,
                k1,
            )[i1]).id() == (#[trigger] row(g, k2)[i2]).id() implies same_ends(
            row(g, k1)[i1],
            row(g, k2)[i2],
        ) by {
            assert(g.contains_key(k1) && g.contains_key(k2));
            assert(listed(vertices@, k1) && listed(vertices@, k2));
            let b1 = choose|b: int| 0 <= b < vertices@.len() && (#[trigger] vertices@[b]).id() == k1;
            let b2 = choose|b: int| 0 <= b < vertices@.len() && (#[trigger] vertices@[b]).id() == k2;
            assert(recorded(table@, row(g, vertices@[b1].id())[i1]));
            assert(recorded(table@, row(g, vertices@[b2].id())[i2]));
        }
    }
    true
}

/// Whether the vertex list and the adjacency structure describe a multigraph:
/// see [`well_formed`]. Each edge is looked at a fixed number of times, with
/// a lookup in an ordered set or map each time.
pub fn is_well_formed(vertices: &Vec<Vertex>, map: &AdjList) -> (r: bool)
    ensures
        r == well_formed(vertices@, rows(map)),
{
    has_distinct_ids(vertices) && keys_are_listed(vertices, map) && rows_are_sound(vertices, map)
        && identities_are_consistent(vertices, map)
}

} // verus!
