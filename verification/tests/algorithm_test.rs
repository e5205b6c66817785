use fastrp::algorithm::{embedding_capacity, row_seed, zeroed_buffer};
use fastrp::FastRPError;
use rand::{RngCore, SeedableRng};
use rand_xoshiro::Xoshiro256PlusPlus;

#[test]
fn test_embedding_capacity() {
    assert_eq!(embedding_capacity(4, 16).unwrap(), 64);
    assert_eq!(embedding_capacity(0, 10).unwrap(), 0);
    match embedding_capacity(2, usize::MAX) {
        Err(FastRPError::ShapeMismatch(msg)) => assert_eq!(msg, "Capacity overflow"),
        other => panic!("Expected ShapeMismatch, got {:?}", other),
    }
}

#[test]
fn test_zeroed_buffer_contents() {
    let v = zeroed_buffer(3, 4, 0.0f32).expect("small buffer");
    assert_eq!(v.len(), 12);
    assert!(v.iter().all(|&x| x == 0.0));
    let v = zeroed_buffer(0, 128, 7u8).expect("empty buffer");
    assert!(v.is_empty());
}

#[test]
fn test_zeroed_buffer_capacity_overflow() {
    match zeroed_buffer(2, usize::MAX, 0.0f32) {
        Err(FastRPError::ShapeMismatch(msg)) => assert_eq!(msg, "Capacity overflow"),
        other => panic!("Expected ShapeMismatch, got {:?}", other.map(|v| v.len())),
    }
}

#[test]
fn test_zeroed_buffer_out_of_memory() {
    // Fits in a usize, but far more memory than any machine has.
    let dim = usize::MAX / 16 - 1;
    match zeroed_buffer(1, dim, 0.0f32) {
        Err(FastRPError::Oom(_)) => {}
        other => panic!("Expected Oom, got {:?}", other.map(|v| v.len())),
    }
}

#[test]
fn test_row_seed_is_base_xor_row() {
    assert_eq!(row_seed(42, 0), 42);
    assert_eq!(row_seed(42, 5), 47);
    assert_eq!(row_seed(1, 1), 0);
    assert_eq!(row_seed(u64::MAX, 1), u64::MAX - 1);
    assert_eq!(row_seed(0b1010, 0b0110), 0b1100);
}

#[test]
fn test_row_seeds_are_distinct() {
    let base = u64::MAX - 10;
    let seeds: Vec<u64> = (0..100).map(|i| row_seed(base, i)).collect();
    for i in 0..seeds.len() {
        for j in i + 1..seeds.len() {
            assert_ne!(seeds[i], seeds[j]);
        }
    }
}

#[test]
fn test_base_seed_keeps_a_given_seed() {
    assert_eq!(fastrp::algorithm::base_seed(Some(42)), 42);
    assert_eq!(fastrp::algorithm::base_seed(Some(u64::MAX)), u64::MAX);
    // Without a seed one is drawn; any value is allowed.
    let _ = fastrp::algorithm::base_seed(None);
}

#[test]
fn test_row_generator_is_seeded_with_the_row_seed() {
    let mut a = fastrp::algorithm::row_generator(42, 3);
    let mut b = Xoshiro256PlusPlus::seed_from_u64(41);
    for _ in 0..8 {
        assert_eq!(a.next_u64(), b.next_u64());
    }
    assert_eq!(fastrp::algorithm::row_generator(7, 1), fastrp::algorithm::row_generator(7, 1));
    assert_ne!(fastrp::algorithm::row_generator(7, 1), fastrp::algorithm::row_generator(7, 2));
    assert_eq!(
        fastrp::algorithm::row_generator(1, 1),
        Xoshiro256PlusPlus::seed_from_u64(0)
    );
}
