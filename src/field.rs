//! Arithmetic in the prime field of order `MODULUS` (2^64 - 2^32 + 1).
//! A field element is a `u64` below the modulus.
use vstd::prelude::*;
use vstd::arithmetic::div_mod::{
    lemma_add_mod_noop, lemma_mod_bound, lemma_mod_twice, lemma_mul_mod_noop, lemma_small_mod,
    lemma_sub_mod_noop,
};

verus! {

/// The order of the field.
pub const MODULUS: u64 = 0xffff_ffff_0000_0001;

/// The modulus as a mathematical integer.
pub open spec fn modulus() -> int {
    MODULUS as int
}

/// The field element that the integer `x` reduces to.
pub open spec fn reduce(x: int) -> int {
    x % modulus()
}

/// A `u64` that is a canonical field element.
pub open spec fn is_element(x: u64) -> bool {
    x < MODULUS
}

pub proof fn lemma_reduce_range(x: int)
    ensures
        0 <= reduce(x) < modulus(),
{
    lemma_mod_bound(x, modulus());
}

pub proof fn lemma_reduce_small(x: int)
    requires
        0 <= x < modulus(),
    ensures
        reduce(x) == x,
{
    lemma_small_mod(x as nat, modulus() as nat);
}

pub proof fn lemma_reduce_twice(x: int)
    ensures
        reduce(reduce(x)) == reduce(x),
{
    lemma_mod_twice(x, modulus());
}

/// Reduction commutes with addition.
pub proof fn lemma_reduce_add(x: int, y: int)
    ensures
        reduce(reduce(x) + reduce(y)) == reduce(x + y),
        reduce(reduce(x) + y) == reduce(x + y),
        reduce(x + reduce(y)) == reduce(x + y),
{
    lemma_add_mod_noop(x, y, modulus());
    lemma_add_mod_noop(reduce(x), y, modulus());
    lemma_add_mod_noop(x, reduce(y), modulus());
    lemma_reduce_twice(x);
    lemma_reduce_twice(y);
}

/// Reduction commutes with subtraction.
pub proof fn lemma_reduce_sub(x: int, y: int)
    ensures
        reduce(reduce(x) - reduce(y)) == reduce(x - y),
        reduce(reduce(x) - y) == reduce(x - y),
        reduce(x - reduce(y)) == reduce(x - y),
{
    lemma_sub_mod_noop(x, y, modulus());
    lemma_sub_mod_noop(reduce(x), y, modulus());
    lemma_sub_mod_noop(x, reduce(y), modulus());
    lemma_reduce_twice(x);
    lemma_reduce_twice(y);
}

/// Reduction commutes with multiplication.
pub proof fn lemma_reduce_mul(x: int, y: int)
    ensures
        reduce(reduce(x) * reduce(y)) == reduce(x * y),
        reduce(reduce(x) * y) == reduce(x * y),
        reduce(x * reduce(y)) == reduce(x * y),
{
    lemma_mul_mod_noop(x, y, modulus());
    lemma_mul_mod_noop(reduce(x), y, modulus());
    lemma_mul_mod_noop(x, reduce(y), modulus());
    lemma_reduce_twice(x);
    lemma_reduce_twice(y);
}

/// The sum of two field elements.
pub fn field_add(a: u64, b: u64) -> (r: u64)
    requires
        is_element(a),
        is_element(b),
    ensures
        is_element(r),
        r as int == reduce(a + b),
{
    let s: u128 = a as u128 + b as u128;
    let r = (s % (MODULUS as u128)) as u64;
    proof { lemma_reduce_range(a + b); }
    r
}

/// The difference `a - b` of two field elements.
pub fn field_sub(a: u64, b: u64) -> (r: u64)
    requires
        is_element(a),
        is_element(b),
    ensures
        is_element(r),
        r as int == reduce(a - b),
{
    let s: u128 = a as u128 + (MODULUS - b) as u128;
    let r = (s % (MODULUS as u128)) as u64;
    proof {
        lemma_reduce_range(a + b);
        lemma_mod_multiples_vanish_one(a - b);
    }
    r
}

proof fn lemma_mod_multiples_vanish_one(x: int)
    ensures
        reduce(x + modulus()) == reduce(x),
{
    vstd::arithmetic::div_mod::lemma_mod_multiples_vanish(1, x, modulus());
}

/// The product of two field elements.
pub fn field_mul(a: u64, b: u64) -> (r: u64)
    requires
        is_element(a),
        is_element(b),
    ensures
        is_element(r),
        r as int == reduce(a * b),
{
    proof {
        assert(a * b < 0x1_0000_0000_0000_0000_0000_0000_0000_0000) by (nonlinear_arith)
            requires a < 0x1_0000_0000_0000_0000u128, b < 0x1_0000_0000_0000_0000u128;
        lemma_reduce_range(a * b);
    }
    let p: u128 = a as u128 * b as u128;
    (p % (MODULUS as u128)) as u64
}

/// The field element that a signed machine integer stands for.
pub fn field_from_i64(c: i64) -> (r: u64)
    ensures
        is_element(r),
        r as int == reduce(c as int),
{
    proof { lemma_reduce_range(c as int); }
    if c >= 0 {
        (c as u64) % MODULUS
    } else {
        let m: u64 = ((0 - (c as i128)) as u64) % MODULUS;
        proof {
            lemma_reduce_sub(0, -c);
            lemma_mod_multiples_vanish_one(-m);
            lemma_reduce_small(modulus() - m);
            lemma_reduce_range(-c);
        }
        if m == 0 {
            proof { lemma_reduce_small(0); }
            0
        } else {
            MODULUS - m
        }
    }
}

/// The field element that an unsigned machine integer stands for.
pub fn field_from_u64(c: u64) -> (r: u64)
    ensures
        is_element(r),
        r as int == reduce(c as int),
{
    proof { lemma_reduce_range(c as int); }
    c % MODULUS
}

} // verus!
