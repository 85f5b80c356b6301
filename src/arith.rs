//! Proportional arithmetic on amounts, through a double-width intermediate.
use sp_core::U256;
use vstd::prelude::*;

verus! {

/// `floor(a * b / c)` computed exactly, clamped to the largest `u128`; zero
/// when `c` is zero.
pub open spec fn mul_div_spec(a: int, b: int, c: int) -> int {
    if c == 0 {
        0
    } else if a * b / c > u128::MAX {
        u128::MAX as int
    } else {
        a * b / c
    }
}

/// Relies on sp_core::U256 (`From<u128>`, `saturating_mul`, `Div` and
/// `TryFrom<U256> for u128`): the product of two `u128` values fits in 256
/// bits, so it is exact; the quotient is narrowed only when it fits in 128 bits.
#[verifier::external_body]
fn wide_mul_div(a: u128, b: u128, c: u128) -> (r: Option<u128>)
    requires
        c > 0,
    ensures
        r matches Some(q) ==> q == a as int * b as int / c as int,
        r is None <==> a as int * b as int / c as int > u128::MAX,
{
    let q = U256::from(a).saturating_mul(U256::from(b)) / U256::from(c);
    u128::try_from(q).ok()
}

/// `floor(a * b / c)` without loss of precision in the product.
pub fn mul_div(a: u128, b: u128, c: u128) -> (r: u128)
    ensures
        r == mul_div_spec(a as int, b as int, c as int),
{
    if c == 0 {
        return 0;
    }
    match wide_mul_div(a, b, c) {
        Some(q) => q,
        None => u128::MAX,
    }
}

} // verus!
