use obj2wav::geometry::{Edge, Position, Vertex};
use obj2wav::id::SequentialGenerator;

fn at(x: f64, y: f64, z: f64) -> Position {
    Position { x: x.to_bits(), y: y.to_bits(), z: z.to_bits() }
}

#[test]
fn vertex_takes_the_next_identity() {
    let mut gen = SequentialGenerator::new();
    let a = Vertex::new(at(0.0, 0.0, 0.0), &mut gen);
    let b = Vertex::new(at(1.0, 0.0, 0.0), &mut gen);
    assert_eq!(a.id(), 0);
    assert_eq!(b.id(), 1);
}

#[test]
fn vertex_keeps_its_position() {
    let mut gen = SequentialGenerator::new();
    let a = Vertex::new(at(1.5, -2.0, 3.25), &mut gen);
    assert_eq!(*a.value(), at(1.5, -2.0, 3.25));
    assert_eq!(f64::from_bits(a.value().x), 1.5);
    assert_eq!(f64::from_bits(a.value().y), -2.0);
    assert_eq!(f64::from_bits(a.value().z), 3.25);
}

#[test]
fn vertex_equality_is_identity() {
    let mut gen = SequentialGenerator::new();
    let a = Vertex::new(at(1.0, 1.0, 1.0), &mut gen);
    let b = Vertex::new(at(1.0, 1.0, 1.0), &mut gen);
    let a_again = a;
    assert_ne!(a, b);
    assert_eq!(a, a_again);
}

#[test]
fn moving_a_vertex_keeps_its_identity() {
    let mut gen = SequentialGenerator::new();
    let mut a = Vertex::new(at(0.0, 0.0, 0.0), &mut gen);
    let before = a;
    *a.mut_value() = at(4.0, 5.0, 6.0);
    assert_eq!(a.id(), before.id());
    assert_eq!(a, before);
    assert_eq!(*a.value(), at(4.0, 5.0, 6.0));
    assert_eq!(*before.value(), at(0.0, 0.0, 0.0));
}

#[test]
fn edge_takes_the_next_identity_and_keeps_its_endpoints() {
    let mut gen = SequentialGenerator::new();
    let a = Vertex::new(at(0.0, 0.0, 0.0), &mut gen);
    let b = Vertex::new(at(1.0, 0.0, 0.0), &mut gen);
    let e = Edge::new((a, b), &mut gen);
    assert_eq!(e.id(), 2);
    let (p, q) = e.vertices();
    assert_eq!(p.id(), a.id());
    assert_eq!(q.id(), b.id());
    assert_eq!(*p.value(), *a.value());
    assert_eq!(*q.value(), *b.value());
}

#[test]
fn parallel_edges_are_different_edges() {
    let mut gen = SequentialGenerator::new();
    let a = Vertex::new(at(0.0, 0.0, 0.0), &mut gen);
    let b = Vertex::new(at(1.0, 0.0, 0.0), &mut gen);
    let e = Edge::new((a, b), &mut gen);
    let f = Edge::new((a, b), &mut gen);
    let e_again = e;
    assert_ne!(e, f);
    assert_eq!(e, e_again);
}

#[test]
fn other_vertex_is_the_far_endpoint() {
    let mut gen = SequentialGenerator::new();
    let a = Vertex::new(at(0.0, 0.0, 0.0), &mut gen);
    let b = Vertex::new(at(1.0, 0.0, 0.0), &mut gen);
    let e = Edge::new((a, b), &mut gen);
    assert_eq!(e.other_vertex(a), Some(b));
    assert_eq!(e.other_vertex(b), Some(a));
}

#[test]
fn other_vertex_of_a_stranger_is_none() {
    let mut gen = SequentialGenerator::new();
    let a = Vertex::new(at(0.0, 0.0, 0.0), &mut gen);
    let b = Vertex::new(at(1.0, 0.0, 0.0), &mut gen);
    let c = Vertex::new(at(0.0, 0.0, 0.0), &mut gen);
    let e = Edge::new((a, b), &mut gen);
    assert_eq!(e.other_vertex(c), None);
}

#[test]
fn other_vertex_of_a_self_loop_is_none() {
    let mut gen = SequentialGenerator::new();
    let a = Vertex::new(at(0.0, 0.0, 0.0), &mut gen);
    let e = Edge::new((a, a), &mut gen);
    assert_eq!(e.other_vertex(a), None);
}

#[test]
fn vertices_and_edges_are_ordered_by_identity() {
    let mut gen = SequentialGenerator::new();
    let a = Vertex::new(at(9.0, 9.0, 9.0), &mut gen);
    let b = Vertex::new(at(0.0, 0.0, 0.0), &mut gen);
    assert!(a < b);
    assert!(b > a);
    assert!(a <= a);
    assert_eq!(a.partial_cmp(&b), Some(std::cmp::Ordering::Less));
    assert_eq!(b.partial_cmp(&a), Some(std::cmp::Ordering::Greater));
    assert_eq!(a.partial_cmp(&a), Some(std::cmp::Ordering::Equal));
    let e = Edge::new((b, a), &mut gen);
    let f = Edge::new((a, b), &mut gen);
    assert!(e < f);
    assert_eq!(f.partial_cmp(&e), Some(std::cmp::Ordering::Greater));
    assert_eq!(e.partial_cmp(&e), Some(std::cmp::Ordering::Equal));
}

#[test]
fn cmp_is_the_order_of_identities() {
    let mut gen = SequentialGenerator::new();
    let a = Vertex::new(at(9.0, 9.0, 9.0), &mut gen);
    let b = Vertex::new(at(0.0, 0.0, 0.0), &mut gen);
    assert_eq!(a.cmp(&b), std::cmp::Ordering::Less);
    assert_eq!(b.cmp(&a), std::cmp::Ordering::Greater);
    assert_eq!(a.cmp(&a), std::cmp::Ordering::Equal);
    let e = Edge::new((b, a), &mut gen);
    let f = Edge::new((a, b), &mut gen);
    assert_eq!(e.cmp(&f), std::cmp::Ordering::Less);
    assert_eq!(f.cmp(&e), std::cmp::Ordering::Greater);
    assert_eq!(f.cmp(&f), std::cmp::Ordering::Equal);
}
