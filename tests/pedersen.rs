use jolt_core::pedersen::{generator_seed, PedersenGenerators};

#[test]
fn clone_n_takes_prefix() {
    let g = PedersenGenerators::from_generators(vec![11u64, 22, 33, 44]);
    let p = g.clone_n(2);
    assert_eq!(p.generators, vec![11, 22]);
    assert_eq!(g.clone_n(4).generators, g.generators);
    assert_eq!(g.clone_n(0).generators, Vec::<u64>::new());
    assert_eq!(p.clone_n(1).generators, vec![11]);
}

#[test]
fn single_generator_of_one() {
    let g = PedersenGenerators::from_generators(vec![5u64]);
    assert_eq!(g.single_generator(), 5);
}

#[test]
fn seed_is_deterministic_and_label_separated() {
    let a = generator_seed(b"label", b"gen");
    let b = generator_seed(b"label", b"gen");
    let c = generator_seed(b"other", b"gen");
    assert_eq!(a, b);
    assert_ne!(a, c);
    assert_ne!(&a[..5], b"label");
    // SHAKE256 of the empty string begins 46 b9 dd 2b.
    let empty = generator_seed(b"", b"");
    assert_eq!(&empty[..4], &[0x46, 0xb9, 0xdd, 0x2b]);
}
