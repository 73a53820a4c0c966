//! Checked fixed-point helpers: multiply / shift / divide a pair of `u128`
//! values and return the rounded result as a `u64`, or
//! [`ErrorCode::MathOverflow`] when it is undefined or does not fit.
use crate::error::ErrorCode;
use crate::u128x128_math::{
    div_rounded, mul_div, mul_div_fits_u64, mul_div_result, mul_shr, shl_div, Rounding,
};
use vstd::arithmetic::power2::*;
use vstd::prelude::*;

verus! {

/// The result of `safe_mul_div_u64(x, y, denominator, rounding)`.
pub open spec fn mul_div_u64_result(x: int, y: int, denominator: int, rounding: Rounding) -> Result<u64, ErrorCode> {
    if mul_div_fits_u64(x, y, denominator, rounding) {
        Ok(div_rounded(x * y, denominator, rounding) as u64)
    } else {
        Err(ErrorCode::MathOverflow)
    }
}

/// The result of `safe_mul_shr_u64(x, y, offset, rounding)`: `x * y / 2^offset`.
pub open spec fn mul_shr_u64_result(x: int, y: int, offset: int, rounding: Rounding) -> Result<u64, ErrorCode> {
    if offset >= 128 {
        Err(ErrorCode::MathOverflow)
    } else {
        mul_div_u64_result(x, y, pow2(offset as nat) as int, rounding)
    }
}

/// The result of `safe_shl_div_u64(x, y, offset, rounding)`: `x * 2^offset / y`.
pub open spec fn shl_div_u64_result(x: int, y: int, offset: int, rounding: Rounding) -> Result<u64, ErrorCode> {
    if offset >= 128 {
        Err(ErrorCode::MathOverflow)
    } else {
        mul_div_u64_result(x, pow2(offset as nat) as int, y, rounding)
    }
}

/// Narrows a `u128` result to a `u64`; a missing or too large value is
/// [`ErrorCode::MathOverflow`].
fn cast(value: Option<u128>) -> (res: Result<u64, ErrorCode>)
    ensures
        res == (match value {
            Some(v) => if v <= u64::MAX { Ok::<u64, ErrorCode>(v as u64) } else { Err(ErrorCode::MathOverflow) },
            None => Err(ErrorCode::MathOverflow),
        }),
{
    match value {
        Some(v) => if v <= u64::MAX as u128 {
            Ok(v as u64)
        } else {
            Err(ErrorCode::MathOverflow)
        },
        None => Err(ErrorCode::MathOverflow),
    }
}

/// Narrowing the `u128` quotient to a `u64` gives the `u64` quotient.
proof fn lemma_cast_mul_div(x: int, y: int, denominator: int, rounding: Rounding)
    requires
        x >= 0,
        y >= 0,
    ensures
        (match mul_div_result(x, y, denominator, rounding) {
            Some(v) => if v <= u64::MAX { Ok::<u64, ErrorCode>(v as u64) } else { Err(ErrorCode::MathOverflow) },
            None => Err(ErrorCode::MathOverflow),
        }) == mul_div_u64_result(x, y, denominator, rounding),
{
    if denominator > 0 {
        assert(x * y >= 0) by (nonlinear_arith) requires x >= 0, y >= 0;
        vstd::arithmetic::div_mod::lemma_div_pos_is_pos(x * y, denominator);
        vstd::arithmetic::div_mod::lemma_div_pos_is_pos(x * y + denominator - 1, denominator);
    }
}

/// `x * y / 2^offset`, rounded, as a `u64`.
pub fn safe_mul_shr_u64(x: u128, y: u128, offset: u8, rounding: Rounding) -> (res: Result<u64, ErrorCode>)
    ensures
        res == mul_shr_u64_result(x as int, y as int, offset as int, rounding),
{
    proof {
        if offset < 128 {
            lemma_cast_mul_div(x as int, y as int, pow2(offset as nat) as int, rounding);
        }
    }
    cast(mul_shr(x, y, offset, rounding))
}

/// `x * 2^offset / y`, rounded, as a `u64`.
pub fn safe_shl_div_u64(x: u128, y: u128, offset: u8, rounding: Rounding) -> (res: Result<u64, ErrorCode>)
    ensures
        res == shl_div_u64_result(x as int, y as int, offset as int, rounding),
{
    proof {
        if offset < 128 {
            lemma_pow2_pos(offset as nat);
            lemma_cast_mul_div(x as int, pow2(offset as nat) as int, y as int, rounding);
        }
    }
    cast(shl_div(x, y, offset, rounding))
}

/// `x * y / denominator`, rounded, as a `u64`.
pub fn safe_mul_div_u64(x: u128, y: u128, denominator: u128, rounding: Rounding) -> (res: Result<u64, ErrorCode>)
    ensures
        res == mul_div_u64_result(x as int, y as int, denominator as int, rounding),
{
    proof {
        lemma_cast_mul_div(x as int, y as int, denominator as int, rounding);
    }
    cast(mul_div(x, y, denominator, rounding))
}

} // verus!
