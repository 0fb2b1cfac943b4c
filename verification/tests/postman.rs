use obj2wav::geometry::{Edge, Position, Vertex};
use obj2wav::id::{IDGenerator, SequentialGenerator};
use obj2wav::postman::eulerize::register_edge;
use obj2wav::postman::{
    duplicate_odd_edges, edge_is_odd, find_path, graph_is_connected, is_well_formed, path,
    vertex_is_odd, PostmanError, Route,
};
use obj2wav::prelude::AdjList;

fn vertices(n: usize, gen: &mut SequentialGenerator) -> Vec<Vertex> {
    (0..n)
        .map(|i| {
            let x = (i as f64).to_bits();
            Vertex::new(Position { x, y: 0, z: 0 }, gen)
        })
        .collect()
}

/// The graph on `verts` with an edge for each pair of positions, in order.
fn graph(verts: &[Vertex], pairs: &[(usize, usize)], gen: &mut SequentialGenerator) -> (AdjList, Vec<Edge>) {
    let mut map = AdjList::new();
    for v in verts {
        map.insert(v.id(), Vec::new());
    }
    let mut edges = Vec::new();
    for &(a, b) in pairs {
        let e = Edge::new((verts[a], verts[b]), gen);
        map.get_mut(&verts[a].id()).unwrap().push(e);
        map.get_mut(&verts[b].id()).unwrap().push(e);
        edges.push(e);
    }
    (map, edges)
}

fn degree(map: &AdjList, v: &Vertex) -> usize {
    map.get(&v.id()).map_or(0, |row| row.len())
}

fn row_ids(map: &AdjList, v: &Vertex) -> Vec<usize> {
    map.get(&v.id()).map_or(Vec::new(), |row| row.iter().map(|e| e.id()).collect())
}

fn route_ids(route: &Route) -> Vec<usize> {
    route.vertices.iter().map(|v| v.id()).collect()
}

/// Every identity that stands in some row, once.
fn edge_ids(map: &AdjList) -> Vec<usize> {
    let mut ids: Vec<usize> = map.values().flatten().map(|e| e.id()).collect();
    ids.sort();
    ids.dedup();
    ids
}

/// Asserts that the route is a closed walk from `start` that uses every edge
/// of `map` exactly once.
fn assert_euler_circuit(route: &Route, map: &AdjList, start: &Vertex) {
    assert_eq!(route.vertices.len(), route.edges.len() + 1);
    assert_eq!(route.vertices[0].id(), start.id());
    assert_eq!(route.vertices[route.vertices.len() - 1].id(), start.id());
    for (i, e) in route.edges.iter().enumerate() {
        let from = route.vertices[i];
        let to = route.vertices[i + 1];
        assert_eq!(e.other_vertex(from), Some(to));
        assert!(row_ids(map, &from).contains(&e.id()));
    }
    let mut used: Vec<usize> = route.edges.iter().map(|e| e.id()).collect();
    used.sort();
    let mut once = used.clone();
    once.dedup();
    assert_eq!(used, once);
    assert_eq!(used, edge_ids(map));
}

#[test]
fn vertex_parity_counts_incident_edges() {
    let mut gen = SequentialGenerator::new();
    let v = vertices(4, &mut gen);
    let (map, _) = graph(&v, &[(0, 1), (0, 2), (0, 3), (1, 2)], &mut gen);
    assert!(vertex_is_odd(&v[0], &map));
    assert!(!vertex_is_odd(&v[1], &map));
    assert!(!vertex_is_odd(&v[2], &map));
    assert!(vertex_is_odd(&v[3], &map));
}

#[test]
fn absent_vertex_is_even() {
    let mut gen = SequentialGenerator::new();
    let v = vertices(3, &mut gen);
    let (map, _) = graph(&v[..2], &[(0, 1)], &mut gen);
    assert!(!vertex_is_odd(&v[2], &map));
}

#[test]
fn parallel_edges_count_with_multiplicity() {
    let mut gen = SequentialGenerator::new();
    let v = vertices(2, &mut gen);
    let (map, _) = graph(&v, &[(0, 1), (0, 1)], &mut gen);
    assert!(!vertex_is_odd(&v[0], &map));
    let (map, _) = graph(&v, &[(0, 1), (0, 1), (0, 1)], &mut gen);
    assert!(vertex_is_odd(&v[0], &map));
}

#[test]
fn edge_is_odd_needs_both_endpoints_odd() {
    let mut gen = SequentialGenerator::new();
    let v = vertices(4, &mut gen);
    // degrees: 3, 2, 2, 1
    let (map, e) = graph(&v, &[(0, 1), (1, 2), (2, 0), (0, 3)], &mut gen);
    assert!(!edge_is_odd(&e[0], &map));
    assert!(!edge_is_odd(&e[1], &map));
    assert!(!edge_is_odd(&e[2], &map));
    assert!(edge_is_odd(&e[3], &map));
}

#[test]
fn well_formed_graphs_are_accepted() {
    let mut gen = SequentialGenerator::new();
    let v = vertices(4, &mut gen);
    let (map, _) = graph(&v, &[(0, 1), (1, 2), (2, 3), (3, 0), (0, 1)], &mut gen);
    assert!(is_well_formed(&v, &map));
    assert!(is_well_formed(&Vec::new(), &AdjList::new()));
}

#[test]
fn isolated_vertex_without_a_row_is_well_formed() {
    let mut gen = SequentialGenerator::new();
    let v = vertices(3, &mut gen);
    let (map, _) = graph(&v[..2], &[(0, 1)], &mut gen);
    assert!(is_well_formed(&v, &map));
}

#[test]
fn repeated_vertex_is_malformed() {
    let mut gen = SequentialGenerator::new();
    let v = vertices(2, &mut gen);
    let (map, _) = graph(&v, &[(0, 1)], &mut gen);
    let listed = vec![v[0], v[1], v[0]];
    assert!(!is_well_formed(&listed, &map));
}

#[test]
fn unlisted_row_is_malformed() {
    let mut gen = SequentialGenerator::new();
    let v = vertices(3, &mut gen);
    let (map, _) = graph(&v, &[(0, 1), (1, 2)], &mut gen);
    let listed = vec![v[0], v[1]];
    assert!(!is_well_formed(&listed, &map));
}

#[test]
fn edge_registered_at_one_end_only_is_malformed() {
    let mut gen = SequentialGenerator::new();
    let v = vertices(2, &mut gen);
    let e = Edge::new((v[0], v[1]), &mut gen);
    let mut map = AdjList::new();
    map.insert(v[0].id(), vec![e]);
    map.insert(v[1].id(), Vec::new());
    assert!(!is_well_formed(&v, &map));
}

#[test]
fn edge_in_a_foreign_row_is_malformed() {
    let mut gen = SequentialGenerator::new();
    let v = vertices(3, &mut gen);
    let (mut map, e) = graph(&v, &[(0, 1)], &mut gen);
    map.get_mut(&v[2].id()).unwrap().push(e[0]);
    assert!(!is_well_formed(&v, &map));
}

#[test]
fn edge_twice_in_a_row_is_malformed() {
    let mut gen = SequentialGenerator::new();
    let v = vertices(2, &mut gen);
    let (mut map, e) = graph(&v, &[(0, 1)], &mut gen);
    map.get_mut(&v[0].id()).unwrap().push(e[0]);
    map.get_mut(&v[1].id()).unwrap().push(e[0]);
    assert!(!is_well_formed(&v, &map));
}

#[test]
fn self_loop_is_malformed() {
    let mut gen = SequentialGenerator::new();
    let v = vertices(1, &mut gen);
    let e = Edge::new((v[0], v[0]), &mut gen);
    let mut map = AdjList::new();
    map.insert(v[0].id(), vec![e, e]);
    assert!(!is_well_formed(&v, &map));
    let mut map = AdjList::new();
    map.insert(v[0].id(), vec![e]);
    assert!(!is_well_formed(&v, &map));
}

#[test]
fn one_identity_for_two_edges_is_malformed() {
    let mut first = SequentialGenerator::new();
    let v = vertices(4, &mut first);
    let mut second = SequentialGenerator::new();
    // Both edges get the identity 0 from their own generators.
    let e = Edge::new((v[0], v[1]), &mut SequentialGenerator::new());
    let f = Edge::new((v[2], v[3]), &mut second);
    assert_eq!(e.id(), f.id());
    let mut map = AdjList::new();
    map.insert(v[0].id(), vec![e]);
    map.insert(v[1].id(), vec![e]);
    map.insert(v[2].id(), vec![f]);
    map.insert(v[3].id(), vec![f]);
    assert!(!is_well_formed(&v, &map));
}

#[test]
fn eulerization_of_even_graph_is_a_no_op() {
    let mut gen = SequentialGenerator::new();
    let v = vertices(4, &mut gen);
    let (map, _) = graph(&v, &[(0, 1), (1, 2), (2, 3), (3, 0)], &mut gen);
    let next = gen.get_id();
    let out = duplicate_odd_edges(&v, &map, &mut gen).unwrap();
    assert!(!out.fallback);
    assert!(out.added.is_empty());
    assert_eq!(out.map, map);
    // No identity was drawn.
    assert_eq!(gen.get_id(), next + 1);
}

#[test]
fn eulerization_duplicates_the_first_edge_between_odd_vertices() {
    let mut gen = SequentialGenerator::new();
    let v = vertices(4, &mut gen);
    // degrees: 3, 2, 2, 1; the only edge between two odd vertices is 0-3.
    let (map, e) = graph(&v, &[(0, 1), (1, 2), (2, 0), (0, 3)], &mut gen);
    let out = duplicate_odd_edges(&v, &map, &mut gen).unwrap();
    assert!(!out.fallback);
    assert_eq!(out.added.len(), 1);
    let dup = out.added[0];
    assert_eq!(dup.id(), 8);
    assert_ne!(dup, e[3]);
    assert_eq!(dup.vertices().0.id(), v[0].id());
    assert_eq!(dup.vertices().1.id(), v[3].id());
    assert_eq!(row_ids(&out.map, &v[0]), vec![e[0].id(), e[2].id(), e[3].id(), dup.id()]);
    assert_eq!(row_ids(&out.map, &v[1]), row_ids(&map, &v[1]));
    assert_eq!(row_ids(&out.map, &v[2]), row_ids(&map, &v[2]));
    assert_eq!(row_ids(&out.map, &v[3]), vec![e[3].id(), dup.id()]);
}

#[test]
fn one_duplicate_fixes_both_endpoints() {
    let mut gen = SequentialGenerator::new();
    let v = vertices(2, &mut gen);
    let (map, e) = graph(&v, &[(0, 1)], &mut gen);
    let out = duplicate_odd_edges(&v, &map, &mut gen).unwrap();
    assert!(!out.fallback);
    assert_eq!(out.added.len(), 1);
    assert_eq!(row_ids(&out.map, &v[0]), vec![e[0].id(), out.added[0].id()]);
    assert_eq!(row_ids(&out.map, &v[1]), vec![e[0].id(), out.added[0].id()]);
}

#[test]
fn scan_sees_degrees_as_they_are_now() {
    let mut gen = SequentialGenerator::new();
    let v = vertices(4, &mut gen);
    // A path 0-1-2-3 with a second edge between 1 and 2: degrees 1, 3, 3, 1.
    // The edge 0-1 joins two odd vertices and is duplicated for vertex 0.
    // That makes 1 even, so vertex 2 passes over both of its edges to 1 and
    // finds 2-3.
    let (map, e) = graph(&v, &[(0, 1), (1, 2), (1, 2), (2, 3)], &mut gen);
    let out = duplicate_odd_edges(&v, &map, &mut gen).unwrap();
    assert!(!out.fallback);
    assert_eq!(out.added.len(), 2);
    assert_eq!(out.added[0].vertices().0.id(), e[0].vertices().0.id());
    assert_eq!(out.added[0].vertices().1.id(), e[0].vertices().1.id());
    assert_eq!(out.added[1].vertices().0.id(), e[3].vertices().0.id());
    assert_eq!(out.added[1].vertices().1.id(), e[3].vertices().1.id());
    for x in &v {
        assert!(!vertex_is_odd(x, &out.map));
    }
}

#[test]
fn eulerization_leaves_every_degree_even() {
    let mut gen = SequentialGenerator::new();
    let v = vertices(6, &mut gen);
    let shapes: Vec<Vec<(usize, usize)>> = vec![
        vec![(0, 1)],
        vec![(0, 1), (1, 2)],
        vec![(0, 1), (1, 2), (2, 3), (3, 4), (4, 5)],
        vec![(0, 1), (0, 2), (0, 3), (0, 4), (0, 5)],
        vec![(0, 1), (1, 2), (2, 0), (0, 3), (3, 4), (4, 5), (5, 3)],
        vec![(0, 1), (0, 1), (0, 1), (2, 3), (4, 5), (4, 5)],
        vec![(0, 1), (0, 2), (0, 3), (1, 2), (1, 3), (2, 3)],
    ];
    for pairs in shapes {
        let (map, _) = graph(&v, &pairs, &mut gen);
        let out = duplicate_odd_edges(&v, &map, &mut gen).unwrap();
        for x in &v {
            assert!(!vertex_is_odd(x, &out.map));
        }
        assert!(is_well_formed(&v, &out.map));
    }
}

#[test]
fn eulerization_only_adds() {
    let mut gen = SequentialGenerator::new();
    let v = vertices(5, &mut gen);
    let (map, _) = graph(&v, &[(0, 1), (1, 2), (2, 0), (0, 3), (3, 4)], &mut gen);
    let out = duplicate_odd_edges(&v, &map, &mut gen).unwrap();
    for x in &v {
        let before = row_ids(&map, x);
        let after = row_ids(&out.map, x);
        assert!(after.len() >= before.len());
        assert_eq!(after[..before.len()], before[..]);
    }
    let skip = Edge::new((v[0], v[1]), &mut gen);
    assert_eq!(graph_is_connected(&skip, v.clone(), &map), Ok(true));
    assert_eq!(graph_is_connected(&skip, v.clone(), &out.map), Ok(true));
}

#[test]
fn eulerization_is_idempotent() {
    let mut gen = SequentialGenerator::new();
    let v = vertices(5, &mut gen);
    let (map, _) = graph(&v, &[(0, 1), (0, 2), (0, 3), (0, 4)], &mut gen);
    let once = duplicate_odd_edges(&v, &map, &mut gen).unwrap();
    let twice = duplicate_odd_edges(&v, &once.map, &mut gen).unwrap();
    assert!(twice.added.is_empty());
    assert!(!twice.fallback);
    assert_eq!(twice.map, once.map);
}

#[test]
fn eulerization_draws_fresh_identities() {
    let mut gen = SequentialGenerator::new();
    let v = vertices(3, &mut gen);
    let (map, e) = graph(&v, &[(0, 1), (1, 2)], &mut gen);
    let out = duplicate_odd_edges(&v, &map, &mut gen).unwrap();
    let old: Vec<usize> = e.iter().map(|x| x.id()).collect();
    let new: Vec<usize> = out.added.iter().map(|x| x.id()).collect();
    assert_eq!(old, vec![3, 4]);
    assert_eq!(new, vec![5, 6]);
    assert_eq!(gen.get_id(), 7);
}

#[test]
fn eulerization_rejects_malformed_input() {
    let mut gen = SequentialGenerator::new();
    let v = vertices(2, &mut gen);
    let e = Edge::new((v[0], v[1]), &mut gen);
    let mut map = AdjList::new();
    map.insert(v[0].id(), vec![e]);
    assert_eq!(duplicate_odd_edges(&v, &map, &mut gen).err(), Some(PostmanError::MalformedAdjacency));
    // No identity was drawn.
    assert_eq!(gen.get_id(), 3);
}

#[test]
fn four_cycle_needs_no_duplicates_and_has_a_five_vertex_circuit() {
    let mut gen = SequentialGenerator::new();
    let v = vertices(4, &mut gen);
    let (map, _) = graph(&v, &[(0, 1), (1, 2), (2, 3), (3, 0)], &mut gen);
    for x in &v {
        assert_eq!(degree(&map, x), 2);
    }
    let out = duplicate_odd_edges(&v, &map, &mut gen).unwrap();
    assert!(out.added.is_empty());
    assert!(!out.fallback);
    assert_eq!(out.map, map);
    let route = find_path(&v, &out.map).unwrap();
    assert_eq!(route.vertices.len(), 5);
    assert_euler_circuit(&route, &map, &v[0]);
    let ids = route_ids(&route);
    let (a, b, c, d) = (v[0].id(), v[1].id(), v[2].id(), v[3].id());
    assert!(ids == vec![a, b, c, d, a] || ids == vec![a, d, c, b, a]);
}

#[test]
fn path_graph_falls_back_and_doubles_both_edges() {
    let mut gen = SequentialGenerator::new();
    let v = vertices(3, &mut gen);
    let (map, e) = graph(&v, &[(0, 1), (1, 2)], &mut gen);
    assert!(vertex_is_odd(&v[0], &map));
    assert!(!vertex_is_odd(&v[1], &map));
    assert!(vertex_is_odd(&v[2], &map));
    // Neither edge joins two odd vertices.
    assert!(!edge_is_odd(&e[0], &map));
    assert!(!edge_is_odd(&e[1], &map));
    let tour = path(v.clone(), map.clone(), &mut gen).unwrap();
    assert!(tour.eulerized.fallback);
    assert_eq!(tour.eulerized.added.len(), 2);
    assert_eq!(tour.route.edges.len(), 4);
    assert_eq!(route_ids(&tour.route), vec![v[0].id(), v[1].id(), v[2].id(), v[1].id(), v[0].id()]);
    assert_euler_circuit(&tour.route, &tour.eulerized.map, &v[0]);
}

#[test]
fn star_falls_back_and_doubles_all_four_edges() {
    let mut gen = SequentialGenerator::new();
    let v = vertices(5, &mut gen);
    let (map, e) = graph(&v, &[(0, 1), (0, 2), (0, 3), (0, 4)], &mut gen);
    assert_eq!(degree(&map, &v[0]), 4);
    for leaf in &v[1..] {
        assert_eq!(degree(&map, leaf), 1);
    }
    for x in &e {
        assert!(!edge_is_odd(x, &map));
    }
    let out = duplicate_odd_edges(&v, &map, &mut gen).unwrap();
    assert!(out.fallback);
    assert_eq!(out.added.len(), 4);
    for (dup, orig) in out.added.iter().zip(e.iter()) {
        assert_ne!(dup, orig);
        assert_eq!(dup.vertices().0.id(), orig.vertices().0.id());
        assert_eq!(dup.vertices().1.id(), orig.vertices().1.id());
    }
    assert_eq!(degree(&out.map, &v[0]), 8);
    for leaf in &v[1..] {
        assert_eq!(degree(&out.map, leaf), 2);
    }
    let route = find_path(&v, &out.map).unwrap();
    assert_eq!(route.edges.len(), 8);
    assert_euler_circuit(&route, &out.map, &v[0]);
}

#[test]
fn fallback_doubles_every_degree() {
    let mut gen = SequentialGenerator::new();
    let v = vertices(5, &mut gen);
    // degrees 1, 2, 2, 2, 1 and then a parallel edge: 1, 3, 3, 2, 1
    let (map, _) = graph(&v, &[(0, 1), (1, 2), (2, 3), (3, 4), (1, 2)], &mut gen);
    // Vertex 0 is odd, its neighbour 1 is odd too: the scan succeeds there.
    // Vertex 2 is then odd with 3 even and 1 even: the scan fails.
    let out = duplicate_odd_edges(&v, &map, &mut gen).unwrap();
    assert!(out.fallback);
    assert_eq!(out.added.len(), 5);
    for x in &v {
        assert_eq!(degree(&out.map, x), 2 * degree(&map, x));
    }
}

#[test]
fn disconnected_graph_has_no_circuit() {
    let mut gen = SequentialGenerator::new();
    let v = vertices(6, &mut gen);
    let (map, _) = graph(&v, &[(0, 1), (1, 2), (2, 0), (3, 4), (4, 5), (5, 3)], &mut gen);
    assert_eq!(find_path(&v, &map).err(), Some(PostmanError::DisconnectedGraph));
    assert_eq!(path(v, map, &mut gen).err(), Some(PostmanError::DisconnectedGraph));
}

#[test]
fn isolated_vertex_beside_edges_is_disconnected() {
    let mut gen = SequentialGenerator::new();
    let v = vertices(4, &mut gen);
    let (map, _) = graph(&v, &[(0, 1), (1, 2), (2, 0)], &mut gen);
    assert_eq!(find_path(&v, &map).err(), Some(PostmanError::DisconnectedGraph));
    // The same when the isolated vertex is the first one.
    let listed = vec![v[3], v[0], v[1], v[2]];
    assert_eq!(find_path(&listed, &map).err(), Some(PostmanError::DisconnectedGraph));
}

#[test]
fn odd_vertex_is_reported_by_the_circuit_builder() {
    let mut gen = SequentialGenerator::new();
    let v = vertices(3, &mut gen);
    let (map, _) = graph(&v, &[(0, 1), (1, 2)], &mut gen);
    assert_eq!(find_path(&v, &map).err(), Some(PostmanError::OddVertex));
}

#[test]
fn malformed_adjacency_is_reported() {
    let mut gen = SequentialGenerator::new();
    let v = vertices(2, &mut gen);
    let e = Edge::new((v[0], v[1]), &mut gen);
    let mut map = AdjList::new();
    map.insert(v[0].id(), vec![e]);
    assert_eq!(find_path(&v, &map).err(), Some(PostmanError::MalformedAdjacency));
    assert_eq!(graph_is_connected(&e, v.clone(), &map), Err(PostmanError::MalformedAdjacency));
    assert_eq!(path(v, map, &mut gen).err(), Some(PostmanError::MalformedAdjacency));
}

#[test]
fn graph_without_edges_has_the_empty_route() {
    let mut gen = SequentialGenerator::new();
    let route = find_path(&Vec::new(), &AdjList::new()).unwrap();
    assert!(route.vertices.is_empty());
    assert!(route.edges.is_empty());
    let v = vertices(3, &mut gen);
    let (map, _) = graph(&v, &[], &mut gen);
    let tour = path(v, map, &mut gen).unwrap();
    assert!(tour.route.vertices.is_empty());
    assert!(tour.route.edges.is_empty());
    assert!(tour.eulerized.added.is_empty());
    assert!(!tour.eulerized.fallback);
}

#[test]
fn circuits_are_spliced_together() {
    let mut gen = SequentialGenerator::new();
    let v = vertices(5, &mut gen);
    // Two triangles that share vertex 0; the walk closes the first before it
    // has seen the second.
    let (map, _) = graph(&v, &[(0, 1), (1, 2), (2, 0), (0, 3), (3, 4), (4, 0)], &mut gen);
    let route = find_path(&v, &map).unwrap();
    assert_eq!(route.edges.len(), 6);
    assert_euler_circuit(&route, &map, &v[0]);
}

#[test]
fn circuit_is_spliced_in_away_from_the_start() {
    let mut gen = SequentialGenerator::new();
    let v = vertices(6, &mut gen);
    // A square 0-1-2-3 with a triangle 2-4-5 hanging at vertex 2.
    let (map, _) = graph(&v, &[(0, 1), (1, 2), (2, 3), (3, 0), (2, 4), (4, 5), (5, 2)], &mut gen);
    let route = find_path(&v, &map).unwrap();
    assert_eq!(route.edges.len(), 7);
    assert_euler_circuit(&route, &map, &v[0]);
}

#[test]
fn parallel_edges_are_each_traversed_once() {
    let mut gen = SequentialGenerator::new();
    let v = vertices(2, &mut gen);
    let (map, e) = graph(&v, &[(0, 1), (0, 1), (0, 1), (0, 1)], &mut gen);
    let route = find_path(&v, &map).unwrap();
    assert_eq!(route_ids(&route), vec![v[0].id(), v[1].id(), v[0].id(), v[1].id(), v[0].id()]);
    let used: Vec<usize> = route.edges.iter().map(|x| x.id()).collect();
    assert_eq!(used.len(), 4);
    for x in &e {
        assert!(used.contains(&x.id()));
    }
    assert_euler_circuit(&route, &map, &v[0]);
}

#[test]
fn route_covers_the_eulerized_graph() {
    let mut gen = SequentialGenerator::new();
    let v = vertices(6, &mut gen);
    let shapes: Vec<Vec<(usize, usize)>> = vec![
        vec![(0, 1), (1, 2), (2, 3), (3, 4), (4, 5)],
        vec![(0, 1), (0, 2), (0, 3), (0, 4), (0, 5)],
        vec![(0, 1), (1, 2), (2, 0), (0, 3), (3, 4), (4, 5), (5, 3)],
        vec![(0, 1), (0, 2), (0, 3), (1, 2), (1, 3), (2, 3), (3, 4), (4, 5)],
        vec![(0, 1), (1, 2), (2, 3), (3, 4), (4, 5), (5, 0), (0, 3), (1, 4), (2, 5)],
    ];
    for pairs in shapes {
        let (map, e) = graph(&v, &pairs, &mut gen);
        let tour = path(v.clone(), map.clone(), &mut gen).unwrap();
        assert_euler_circuit(&tour.route, &tour.eulerized.map, &v[0]);
        assert_eq!(tour.route.edges.len(), e.len() + tour.eulerized.added.len());
        for x in &v {
            assert!(!vertex_is_odd(x, &tour.eulerized.map));
        }
    }
}

#[test]
fn route_carries_the_positions_of_its_vertices() {
    let mut gen = SequentialGenerator::new();
    let v = vertices(3, &mut gen);
    let (map, _) = graph(&v, &[(0, 1), (1, 2), (2, 0)], &mut gen);
    let route = find_path(&v, &map).unwrap();
    for x in &route.vertices {
        let listed = v.iter().find(|y| y.id() == x.id()).unwrap();
        assert_eq!(x.value(), listed.value());
    }
}

#[test]
fn connected_graph_is_connected() {
    let mut gen = SequentialGenerator::new();
    let v = vertices(4, &mut gen);
    let (map, _) = graph(&v, &[(0, 1), (1, 2), (2, 3)], &mut gen);
    let stranger = Edge::new((v[0], v[3]), &mut gen);
    assert_eq!(graph_is_connected(&stranger, v, &map), Ok(true));
}

#[test]
fn bridge_disconnects_when_skipped() {
    let mut gen = SequentialGenerator::new();
    let v = vertices(4, &mut gen);
    let (map, e) = graph(&v, &[(0, 1), (1, 2), (2, 3)], &mut gen);
    assert_eq!(graph_is_connected(&e[0], v.clone(), &map), Ok(false));
    assert_eq!(graph_is_connected(&e[1], v.clone(), &map), Ok(false));
    assert_eq!(graph_is_connected(&e[2], v.clone(), &map), Ok(false));
}

#[test]
fn cycle_edge_is_no_bridge() {
    let mut gen = SequentialGenerator::new();
    let v = vertices(4, &mut gen);
    let (map, e) = graph(&v, &[(0, 1), (1, 2), (2, 0), (2, 3)], &mut gen);
    assert_eq!(graph_is_connected(&e[0], v.clone(), &map), Ok(true));
    assert_eq!(graph_is_connected(&e[1], v.clone(), &map), Ok(true));
    assert_eq!(graph_is_connected(&e[2], v.clone(), &map), Ok(true));
    assert_eq!(graph_is_connected(&e[3], v.clone(), &map), Ok(false));
}

#[test]
fn parallel_edge_is_no_bridge() {
    let mut gen = SequentialGenerator::new();
    let v = vertices(2, &mut gen);
    let (map, e) = graph(&v, &[(0, 1), (0, 1)], &mut gen);
    assert_eq!(graph_is_connected(&e[0], v.clone(), &map), Ok(true));
    assert_eq!(graph_is_connected(&e[1], v.clone(), &map), Ok(true));
}

#[test]
fn two_components_are_not_connected() {
    let mut gen = SequentialGenerator::new();
    let v = vertices(4, &mut gen);
    let (map, _) = graph(&v, &[(0, 1), (2, 3)], &mut gen);
    let stranger = Edge::new((v[0], v[3]), &mut gen);
    assert_eq!(graph_is_connected(&stranger, v, &map), Ok(false));
}

#[test]
fn graph_without_vertices_is_connected() {
    let mut gen = SequentialGenerator::new();
    let v = vertices(2, &mut gen);
    let stranger = Edge::new((v[0], v[1]), &mut gen);
    assert_eq!(graph_is_connected(&stranger, Vec::new(), &AdjList::new()), Ok(true));
}

#[test]
fn long_chain_needs_no_deep_recursion() {
    let mut gen = SequentialGenerator::new();
    let n = 2000;
    let v = vertices(n, &mut gen);
    let mut pairs: Vec<(usize, usize)> = (0..n - 1).map(|i| (i, i + 1)).collect();
    pairs.push((n - 1, 0));
    let (map, e) = graph(&v, &pairs, &mut gen);
    assert_eq!(graph_is_connected(&e[0], v.clone(), &map), Ok(true));
    let tour = path(v.clone(), map, &mut gen).unwrap();
    assert_eq!(tour.route.edges.len(), n);
    assert_euler_circuit(&tour.route, &tour.eulerized.map, &v[0]);
}

#[test]
fn register_edge_appends_to_both_rows() {
    let mut gen = SequentialGenerator::new();
    let v = vertices(3, &mut gen);
    let (mut map, e) = graph(&v, &[(0, 1), (1, 2)], &mut gen);
    let d = Edge::new((v[2], v[0]), &mut gen);
    register_edge(&mut map, d);
    assert_eq!(row_ids(&map, &v[0]), vec![e[0].id(), d.id()]);
    assert_eq!(row_ids(&map, &v[1]), vec![e[0].id(), e[1].id()]);
    assert_eq!(row_ids(&map, &v[2]), vec![e[1].id(), d.id()]);
    assert!(is_well_formed(&v, &map));
}

#[test]
fn register_edge_makes_missing_rows() {
    let mut gen = SequentialGenerator::new();
    let v = vertices(2, &mut gen);
    let mut map = AdjList::new();
    let d = Edge::new((v[0], v[1]), &mut gen);
    register_edge(&mut map, d);
    assert_eq!(row_ids(&map, &v[0]), vec![d.id()]);
    assert_eq!(row_ids(&map, &v[1]), vec![d.id()]);
    assert_eq!(map.len(), 2);
}

#[test]
fn every_input_edge_is_traversed() {
    let mut gen = SequentialGenerator::new();
    let v = vertices(5, &mut gen);
    let (map, e) = graph(&v, &[(0, 1), (1, 2), (2, 3), (3, 4), (1, 3)], &mut gen);
    let tour = path(v, map, &mut gen).unwrap();
    let used: Vec<usize> = tour.route.edges.iter().map(|x| x.id()).collect();
    for x in &e {
        assert_eq!(used.iter().filter(|id| **id == x.id()).count(), 1);
    }
    for x in &tour.eulerized.added {
        assert_eq!(used.iter().filter(|id| **id == x.id()).count(), 1);
    }
    assert_eq!(used.len(), e.len() + tour.eulerized.added.len());
}

#[test]
fn large_star_is_walked_leaf_by_leaf() {
    let mut gen = SequentialGenerator::new();
    let n = 20000;
    let v = vertices(n + 1, &mut gen);
    let pairs: Vec<(usize, usize)> = (1..=n).map(|i| (0, i)).collect();
    let (map, _) = graph(&v, &pairs, &mut gen);
    let tour = path(v.clone(), map, &mut gen).unwrap();
    assert!(tour.eulerized.fallback);
    assert_eq!(tour.eulerized.added.len(), n);
    assert_eq!(tour.route.edges.len(), 2 * n);
    let ids = route_ids(&tour.route);
    for (i, id) in ids.iter().enumerate() {
        if i % 2 == 0 {
            assert_eq!(*id, v[0].id());
        } else {
            assert_eq!(*id, v[(i + 1) / 2].id());
        }
    }
}

#[test]
fn large_star_is_checked_and_searched_in_time() {
    let mut gen = SequentialGenerator::new();
    let n = 20000;
    let v = vertices(n + 1, &mut gen);
    let pairs: Vec<(usize, usize)> = (1..=n).map(|i| (0, i)).collect();
    let (map, e) = graph(&v, &pairs, &mut gen);
    assert!(is_well_formed(&v, &map));
    assert_eq!(graph_is_connected(&e[n - 1], v.clone(), &map), Ok(false));
    let stranger = Edge::new((v[1], v[2]), &mut gen);
    assert_eq!(graph_is_connected(&stranger, v, &map), Ok(true));
}

/// A small deterministic generator of pseudo-random numbers.
fn next_random(state: &mut u64) -> usize {
    *state = state.wrapping_mul(6364136223846793005).wrapping_add(1442695040888963407);
    (*state >> 33) as usize
}

/// Whether every vertex can be reached from the first one over `pairs`.
fn reaches_all(n: usize, pairs: &[(usize, usize)]) -> bool {
    let mut reached = vec![false; n];
    if n == 0 {
        return true;
    }
    reached[0] = true;
    let mut changed = true;
    while changed {
        changed = false;
        for &(a, b) in pairs {
            if reached[a] != reached[b] {
                reached[a] = true;
                reached[b] = true;
                changed = true;
            }
        }
    }
    reached.iter().all(|r| *r)
}

#[test]
fn random_graphs_are_toured_or_found_disconnected() {
    let mut state: u64 = 2024;
    let mut toured = 0;
    let mut refused = 0;
    for round in 0..300 {
        let n = 1 + next_random(&mut state) % 9;
        let m = next_random(&mut state) % (3 * n);
        let mut pairs = Vec::new();
        for _ in 0..m {
            let a = next_random(&mut state) % n;
            let b = next_random(&mut state) % n;
            if a != b {
                pairs.push((a, b));
            }
        }
        let mut gen = SequentialGenerator::new();
        let v = vertices(n, &mut gen);
        let (map, e) = graph(&v, &pairs, &mut gen);
        assert!(is_well_formed(&v, &map), "round {}", round);
        let out = duplicate_odd_edges(&v, &map, &mut gen).unwrap();
        for x in &v {
            assert!(!vertex_is_odd(x, &out.map), "round {}", round);
            let before = row_ids(&map, x);
            assert_eq!(row_ids(&out.map, x)[..before.len()], before[..], "round {}", round);
        }
        assert!(is_well_formed(&v, &out.map), "round {}", round);
        let again = duplicate_odd_edges(&v, &out.map, &mut gen).unwrap();
        assert!(again.added.is_empty(), "round {}", round);
        assert_eq!(again.map, out.map, "round {}", round);
        let found = find_path(&v, &out.map);
        if pairs.is_empty() {
            let route = found.unwrap();
            assert!(route.vertices.is_empty() && route.edges.is_empty(), "round {}", round);
        } else if reaches_all(n, &pairs) {
            let route = found.unwrap();
            assert_eq!(route.edges.len(), e.len() + out.added.len(), "round {}", round);
            assert_euler_circuit(&route, &out.map, &v[0]);
            toured += 1;
        } else {
            assert_eq!(found.err(), Some(PostmanError::DisconnectedGraph), "round {}", round);
            refused += 1;
        }
        if !e.is_empty() {
            let skip = e[next_random(&mut state) % e.len()];
            let rest: Vec<(usize, usize)> = pairs
                .iter()
                .zip(e.iter())
                .filter(|(_, x)| x.id() != skip.id())
                .map(|(p, _)| *p)
                .collect();
            assert_eq!(
                graph_is_connected(&skip, v.clone(), &map),
                Ok(reaches_all(n, &rest)),
                "round {}",
                round
            );
        }
    }
    assert!(toured > 20);
    assert!(refused > 20);
}
