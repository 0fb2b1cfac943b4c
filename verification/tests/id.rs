use obj2wav::id::{IDGenerator, SequentialGenerator};

#[test]
fn sequential_generator_starts_at_zero() {
    let mut gen = SequentialGenerator::new();
    assert_eq!(gen.get_id(), 0);
}

#[test]
fn sequential_generator_counts_up() {
    let mut gen = SequentialGenerator::new();
    let ids: Vec<usize> = (0..5).map(|_| gen.get_id()).collect();
    assert_eq!(ids, vec![0, 1, 2, 3, 4]);
}

#[test]
fn sequential_generator_never_repeats() {
    let mut gen = SequentialGenerator::new();
    let mut seen = std::collections::BTreeSet::new();
    for _ in 0..1000 {
        assert!(seen.insert(gen.get_id()));
    }
}

#[test]
fn default_generator_starts_at_zero() {
    let mut gen = SequentialGenerator::default();
    assert_eq!(gen.get_id(), 0);
    assert_eq!(gen.get_id(), 1);
}

#[test]
fn two_generators_are_independent() {
    let mut first = SequentialGenerator::new();
    let mut second = SequentialGenerator::new();
    assert_eq!(first.get_id(), 0);
    assert_eq!(first.get_id(), 1);
    assert_eq!(second.get_id(), 0);
}

#[test]
fn peek_tells_the_next_identity() {
    let mut gen = SequentialGenerator::new();
    assert_eq!(gen.peek(), 0);
    let id = gen.get_id();
    assert_eq!(id, 0);
    assert_eq!(gen.peek(), 1);
    assert_eq!(gen.get_id(), 1);
}
