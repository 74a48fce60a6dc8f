use vstd::prelude::*;

verus! {

/// The prime modulus of the engine's field: 2^61 - 1.
pub const FIELD_PRIME: u64 = 2305843009213693951;

/// Addition in the prime field.
pub open spec fn fadd(a: int, b: int) -> int {
    (a + b) % (FIELD_PRIME as int)
}

/// Multiplication in the prime field.
pub open spec fn fmul(a: int, b: int) -> int {
    (a * b) % (FIELD_PRIME as int)
}

/// The field representative of a boolean: 1 for true, 0 for false.
pub open spec fn bool_to_field(b: bool) -> u64 {
    if b {
        1u64
    } else {
        0u64
    }
}

pub fn field_add(a: u64, b: u64) -> (r: u64)
    requires
        a < FIELD_PRIME,
        b < FIELD_PRIME,
    ensures
        r == fadd(a as int, b as int),
        r < FIELD_PRIME,
{
    (a + b) % FIELD_PRIME
}

pub fn field_mul(a: u64, b: u64) -> (r: u64)
    requires
        a < FIELD_PRIME,
        b < FIELD_PRIME,
    ensures
        r == fmul(a as int, b as int),
        r < FIELD_PRIME,
{
    proof {
        vstd::arithmetic::mul::lemma_mul_upper_bound(
            a as int,
            (FIELD_PRIME - 1) as int,
            b as int,
            (FIELD_PRIME - 1) as int,
        );
        assert((FIELD_PRIME - 1) as int * (FIELD_PRIME - 1) as int <= u128::MAX as int)
            by (nonlinear_arith);
    }
    let prod: u128 = (a as u128) * (b as u128);
    let rem: u128 = prod % (FIELD_PRIME as u128);
    rem as u64
}

/// Reduces an arbitrary machine word into the field.
pub fn field_reduce(a: u64) -> (r: u64)
    ensures
        r == (a as int) % (FIELD_PRIME as int),
        r < FIELD_PRIME,
{
    a % FIELD_PRIME
}

} // verus!
