use jolt_core::builder::{pack_be, pack_le, R1CSBuilder};
use jolt_core::field::{field_add, field_from_i64, field_mul, field_sub, MODULUS};
use jolt_core::lc::{Variable, LC};
use jolt_core::uniform::CombinedUniformBuilder;

fn input(i: usize) -> LC {
    LC::var(Variable::Input(i))
}

/// Runs a one-step circuit over the given inputs and reports whether every row holds.
fn satisfied(b: R1CSBuilder, values: &[u64]) -> bool {
    let c = CombinedUniformBuilder::construct(b, 1);
    let inputs: Vec<Vec<u64>> = values.iter().map(|v| vec![*v]).collect();
    let aux = c.compute_aux(&inputs);
    let (az, bz, cz) = c.compute_spartan(&inputs, &aux);
    c.check_valid(&az, &bz, &cz).is_ok()
}

#[test]
fn field_formulas() {
    assert_eq!(field_add(MODULUS - 1, 2), 1);
    assert_eq!(field_sub(1, 2), MODULUS - 1);
    assert_eq!(field_mul(MODULUS - 1, MODULUS - 1), 1);
    assert_eq!(field_from_i64(-1), MODULUS - 1);
    assert_eq!(field_from_i64(i64::MIN), MODULUS - (1u64 << 63) % MODULUS);
    assert_eq!(field_from_i64(0xffffffff), 0xffffffff);
}

#[test]
fn lc_evaluation() {
    let lc = LC::term(Variable::Input(0), 4).plus(&LC::constant(0x80000000 - 4)).minus(&input(1));
    assert_eq!(lc.evaluate(&vec![10, 7], &vec![]), 40 + 0x80000000 - 4 - 7);
    let scaled = input(0).scaled(-3);
    assert_eq!(scaled.evaluate(&vec![2], &vec![]), MODULUS - 6);
    assert_eq!(LC::var(Variable::Auxiliary(0)).evaluate(&vec![], &vec![9]), 9);
    assert_eq!(LC::constant(-1).evaluate(&vec![], &vec![]), MODULUS - 1);
}

#[test]
fn binary_constraint() {
    for (x, ok) in [(0u64, true), (1, true), (2, false), (MODULUS - 1, false), (12345, false)] {
        let mut b = R1CSBuilder::new(1);
        b.constrain_binary(&input(0));
        assert_eq!(satisfied(b, &[x]), ok, "x = {}", x);
    }
}

#[test]
fn conditional_equality() {
    for (cond, a, c, ok) in [(0u64, 3u64, 5u64, true), (0, 5, 5, true), (1, 5, 5, true), (1, 3, 5, false)] {
        let mut b = R1CSBuilder::new(3);
        b.constrain_eq_conditional(&input(0), &input(1), &input(2));
        assert_eq!(satisfied(b, &[cond, a, c]), ok);
    }
}

#[test]
fn equality_constraint() {
    let mut b = R1CSBuilder::new(2);
    b.constrain_eq(&input(0), &input(1));
    let mut b2 = R1CSBuilder::new(2);
    b2.constrain_eq(&input(0), &input(1));
    assert!(satisfied(b, &[8, 8]));
    assert!(!satisfied(b2, &[8, 9]));
}

#[test]
fn if_else_selects() {
    for (cond, expected) in [(1u64, 11u64), (0, 22)] {
        let mut b = R1CSBuilder::new(3);
        let y = b.allocate_if_else(&input(0), &input(1), &input(2));
        b.constrain_eq(&y, &LC::constant(expected as i64));
        let c = CombinedUniformBuilder::construct(b, 1);
        let inputs = vec![vec![cond], vec![11], vec![22]];
        let aux = c.compute_aux(&inputs);
        assert_eq!(aux, vec![vec![expected]]);
        let (az, bz, cz) = c.compute_spartan(&inputs, &aux);
        assert_eq!(c.check_valid(&az, &bz, &cz), Ok(()));
    }
}

#[test]
fn product_wire() {
    let mut b = R1CSBuilder::new(2);
    let _y = b.allocate_prod(&input(0), &input(1));
    let c = CombinedUniformBuilder::construct(b, 1);
    let inputs = vec![vec![6], vec![7]];
    let aux = c.compute_aux(&inputs);
    assert_eq!(aux, vec![vec![42]]);
    let (az, bz, cz) = c.compute_spartan(&inputs, &aux);
    assert_eq!(c.check_valid(&az, &bz, &cz), Ok(()));
    let bad_aux = vec![vec![41]];
    let (az, bz, cz) = c.compute_spartan(&inputs, &bad_aux);
    let err = c.check_valid(&az, &bz, &cz).unwrap_err();
    assert_eq!((err.constraint, err.step), (0, 0));
}

#[test]
fn packing_round_trip() {
    // A 32-bit value in four 8-bit chunks, most significant first.
    let v: u64 = 0xdead_beef;
    let be_chunks = [0xde, 0xad, 0xbe, 0xef];
    let mut b = R1CSBuilder::new(4);
    let chunks: Vec<LC> = (0..4).map(input).collect();
    let packed = b.allocate_pack_be(&chunks, 8);
    b.constrain_eq(&packed, &LC::constant(v as i64));
    let c = CombinedUniformBuilder::construct(b, 1);
    let inputs: Vec<Vec<u64>> = be_chunks.iter().map(|x| vec![*x]).collect();
    let aux = c.compute_aux(&inputs);
    assert_eq!(aux, vec![vec![v]]);
    let (az, bz, cz) = c.compute_spartan(&inputs, &aux);
    assert_eq!(c.check_valid(&az, &bz, &cz), Ok(()));

    // The same value little-endian: the chunk order is reversed.
    let mut b = R1CSBuilder::new(4);
    let _packed = b.allocate_pack_le(&chunks, 8);
    let c = CombinedUniformBuilder::construct(b, 1);
    let inputs: Vec<Vec<u64>> = be_chunks.iter().rev().map(|x| vec![*x]).collect();
    assert_eq!(c.compute_aux(&inputs), vec![vec![v]]);
}

#[test]
fn packing_wide_chunks() {
    let chunks: Vec<LC> = (0..4).map(input).collect();
    let be = pack_be(&chunks, 16);
    assert_eq!(be.evaluate(&vec![1, 2, 3, 4], &vec![]), (1 << 48) + (2 << 32) + (3 << 16) + 4);
    let le = pack_le(&chunks, 16);
    assert_eq!(le.evaluate(&vec![1, 2, 3, 4], &vec![]), 1 + (2 << 16) + (3 << 32) + (4 << 48));
    let mut b = R1CSBuilder::new(5);
    b.constrain_pack_be(&chunks, &input(4), 1);
    assert!(satisfied(b, &[1, 0, 1, 1, 11]));
}
