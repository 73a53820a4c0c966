//! Bin id to Q64.64 price: `price = (1 + bin_step / 10_000) ^ bin_id`,
//! computed by binary exponentiation with truncating Q64.64 products.
use crate::error::ErrorCode;
use vstd::arithmetic::div_mod::*;
use vstd::prelude::*;

verus! {

/// Smallest bin id a pool can use.
pub const MIN_BIN_ID: i32 = -443636;

/// Largest bin id a pool can use.
pub const MAX_BIN_ID: i32 = 443636;

/// Basis points in one whole (100%).
pub const BASIS_POINT_MAX: i32 = 10000;

/// Number of fractional bits of a Q64.64 number.
pub const SCALE_OFFSET: u8 = 64;

/// `1.0` in Q64.64.
pub const ONE: u128 = 0x1_0000_0000_0000_0000;

/// Precision used when converting between decimal and fixed point (`10^12`).
pub const PRECISION: u128 = 1_000_000_000_000;

/// Exponents at or above this value overflow any Q64.64 price: `|exp|` is
/// processed over its 19 low bits.
pub const MAX_EXPONENTIAL: u32 = 0x80000;

/// Number of exponent bits processed by [`pow`].
pub open spec fn exponent_bits() -> nat {
    19
}

/// Binary exponentiation over the low `steps` bits of `exp`: at each bit the
/// running `result` is multiplied by `squared` (truncated Q64.64 product)
/// when the bit is set, and `squared` is squared (truncated) for the next bit.
pub open spec fn pow_steps(result: int, squared: int, exp: nat, steps: nat) -> int
    decreases steps,
{
    if steps == 0 {
        result
    } else {
        let next = if exp % 2 == 1 { result * squared / (ONE as int) } else { result };
        pow_steps(next, squared * squared / (ONE as int), exp / 2, (steps - 1) as nat)
    }
}

/// `|exp|` as a natural number.
pub open spec fn exponent_magnitude(exp: i32) -> nat {
    if exp < 0 { (-exp) as nat } else { exp as nat }
}

/// The value of `pow(base, exp)`: `base ^ exp` in Q64.64. A base `>= 1.0`
/// is first replaced by its reciprocal `u128::MAX / base` and the final
/// result inverted back, which keeps every intermediate product below
/// `2^128`. `None` when `|exp| >= MAX_EXPONENTIAL` or the truncated power
/// vanishes.
pub open spec fn pow_spec(base: u128, exp: i32) -> Option<u128> {
    if exp == 0 {
        Some(ONE)
    } else if exponent_magnitude(exp) >= MAX_EXPONENTIAL {
        None
    } else {
        let invert_base = base >= ONE;
        let squared: int = if invert_base { u128::MAX as int / base as int } else { base as int };
        let invert = (exp < 0) != invert_base;
        let result = pow_steps(ONE as int, squared, exponent_magnitude(exp), exponent_bits());
        if result == 0 {
            None
        } else if invert {
            Some((u128::MAX as int / result) as u128)
        } else {
            Some(result as u128)
        }
    }
}

proof fn lemma_q64_product_bounds(a: int, b: int)
    requires
        0 <= a <= ONE as int,
        0 <= b < ONE as int,
    ensures
        a * b < 0x1_0000_0000_0000_0000_0000_0000_0000_0000,
        0 <= a * b / (ONE as int) <= a,
        a * b / (ONE as int) < ONE as int,
{
    assert(0 <= a * b <= a * (ONE as int)) by (nonlinear_arith)
        requires 0 <= a <= 0x1_0000_0000_0000_0000int, 0 <= b < 0x1_0000_0000_0000_0000int;
    assert(a * b < 0x1_0000_0000_0000_0000_0000_0000_0000_0000) by (nonlinear_arith)
        requires 0 <= a <= 0x1_0000_0000_0000_0000int, 0 <= b < 0x1_0000_0000_0000_0000int;
    lemma_div_is_ordered(a * b, a * (ONE as int), ONE as int);
    lemma_div_multiples_vanish(a, ONE as int);
    assert(a * (ONE as int) == (ONE as int) * a) by (nonlinear_arith);
    lemma_div_pos_is_pos(a * b, ONE as int);
    assert(a * b / (ONE as int) < ONE as int) by {
        lemma_div_strictly_bounded_by_multiple(a * b, ONE as int, ONE as int);
    }
}

proof fn lemma_div_strictly_bounded_by_multiple(x: int, d: int, bound: int)
    requires
        d > 0,
        bound > 0,
        0 <= x < bound * d,
    ensures
        x / d < bound,
{
    lemma_fundamental_div_mod(x, d);
    lemma_mod_pos_bound(x, d);
    if x / d >= bound {
        assert(d * (x / d) >= d * bound) by (nonlinear_arith)
            requires x / d >= bound, d > 0;
        assert(false) by (nonlinear_arith)
            requires
                x == d * (x / d) + x % d,
                x % d >= 0,
                d * (x / d) >= d * bound,
                x < bound * d,
        ;
    }
}

/// `base ^ exp` in Q64.64, by binary exponentiation over the 19 low bits of
/// `|exp|` with truncating products.
pub fn pow(base: u128, exp: i32) -> (res: Option<u128>)
    ensures
        res == pow_spec(base, exp),
{
    if exp == 0 {
        return Some(ONE);
    }
    let magnitude: u32 = if exp < 0 {
        if exp == i32::MIN {
            0x8000_0000
        } else {
            (-exp) as u32
        }
    } else {
        exp as u32
    };
    if magnitude >= MAX_EXPONENTIAL {
        return None;
    }
    let mut invert = exp < 0;
    let mut squared = base;
    let mut result = ONE;
    if squared >= result {
        squared = u128::MAX / squared;
        invert = !invert;
        proof {
            lemma_div_is_ordered_by_denominator(u128::MAX as int, ONE as int, base as int);
            lemma_div_strictly_bounded_by_multiple(u128::MAX as int, ONE as int, ONE as int);
        }
    }
    let ghost squared0: int = squared as int;
    let mut remaining: u32 = magnitude;
    let mut i: u32 = 0;
    while i < 19
        invariant
            i <= 19,
            squared < ONE,
            result <= ONE,
            pow_steps(result as int, squared as int, remaining as nat, (19 - i) as nat)
                == pow_steps(ONE as int, squared0, magnitude as nat, exponent_bits()),
        decreases 19 - i,
    {
        proof {
            lemma_q64_product_bounds(result as int, squared as int);
            lemma_q64_product_bounds(squared as int, squared as int);
        }
        if remaining % 2 == 1 {
            result = (result * squared) / ONE;
        }
        squared = (squared * squared) / ONE;
        remaining = remaining / 2;
        i = i + 1;
    }
    if result == 0 {
        return None;
    }
    if invert {
        Some(u128::MAX / result)
    } else {
        Some(result)
    }
}

/// The Q64.64 base `1 + bin_step / 10_000` (fraction truncated) of a bin step.
pub open spec fn price_base(bin_step: u16) -> u128 {
    (ONE as int + (bin_step as int * ONE as int) / (BASIS_POINT_MAX as int)) as u128
}

/// The result of `get_price_from_id(active_id, bin_step)`.
pub open spec fn price_from_id_result(active_id: i32, bin_step: u16) -> Result<u128, ErrorCode> {
    match pow_spec(price_base(bin_step), active_id) {
        Some(price) => Ok(price),
        None => Err(ErrorCode::MathOverflow),
    }
}

/// Q64.64 price of bin `active_id` for a pool of the given bin step.
pub fn get_price_from_id(active_id: i32, bin_step: u16) -> (res: Result<u128, ErrorCode>)
    ensures
        res == price_from_id_result(active_id, bin_step),
{
    proof {
        assert(bin_step as int * ONE as int <= 0xffff * 0x1_0000_0000_0000_0000int) by (nonlinear_arith)
            requires bin_step <= 0xffff;
        lemma_div_is_ordered(bin_step as int * ONE as int, 0xffff * 0x1_0000_0000_0000_0000int, 10000);
    }
    let bps = ((bin_step as u128) * ONE) / (BASIS_POINT_MAX as u128);
    let base = ONE + bps;
    match pow(base, active_id) {
        Some(price) => Ok(price),
        None => Err(ErrorCode::MathOverflow),
    }
}

/// Binary exponentiation of a fraction below one stays at or below the
/// running result, and strictly below it when the exponent has a set bit
/// among the processed ones and the result is positive.
proof fn lemma_pow_steps_shrinks(result: int, squared: int, exp: nat, steps: nat)
    requires
        0 <= result <= ONE as int,
        0 <= squared < ONE as int,
        exp < vstd::arithmetic::power2::pow2(steps),
    ensures
        0 <= pow_steps(result, squared, exp, steps) <= result,
        exp > 0 && result > 0 ==> pow_steps(result, squared, exp, steps) < result,
    decreases steps,
{
    if steps == 0 {
        vstd::arithmetic::power2::lemma2_to64();
    } else {
        vstd::arithmetic::power2::lemma_pow2_unfold(steps);
        lemma_q64_product_bounds(result, squared);
        lemma_q64_product_bounds(squared, squared);
        let next = if exp % 2 == 1 { result * squared / (ONE as int) } else { result };
        if exp % 2 == 1 && result > 0 {
            assert(result * squared < result * (ONE as int)) by (nonlinear_arith)
                requires result > 0, squared < 0x1_0000_0000_0000_0000int;
            lemma_div_strictly_bounded_by_multiple(result * squared, ONE as int, result);
        }
        lemma_div_strictly_bounded_by_multiple(exp as int, 2, vstd::arithmetic::power2::pow2((steps - 1) as nat) as int);
        lemma_pow_steps_shrinks(next, squared * squared / (ONE as int), exp / 2, (steps - 1) as nat);
    }
}

/// Bins above 0 are priced above 1.0 and bins below 0 below 1.0; bin 0 is
/// priced exactly 1.0.
pub proof fn law_price_sides_of_one(active_id: i32, bin_step: u16)
    ensures
        active_id == 0 ==> price_from_id_result(active_id, bin_step) == Ok::<u128, ErrorCode>(ONE),
        active_id > 0 && price_from_id_result(active_id, bin_step) is Ok
            ==> price_from_id_result(active_id, bin_step)->Ok_0 > ONE,
        active_id < 0 && price_from_id_result(active_id, bin_step) is Ok
            ==> price_from_id_result(active_id, bin_step)->Ok_0 < ONE,
{
    let base = price_base(bin_step);
    assert(bin_step as int * ONE as int >= 0) by (nonlinear_arith) requires bin_step >= 0;
    lemma_div_pos_is_pos(bin_step as int * ONE as int, 10000);
    assert(bin_step as int * ONE as int <= 0xffff * 0x1_0000_0000_0000_0000int) by (nonlinear_arith)
        requires bin_step <= 0xffff;
    lemma_div_is_ordered(bin_step as int * ONE as int, 0xffff * 0x1_0000_0000_0000_0000int, 10000);
    assert(base >= ONE);
    if active_id != 0 && exponent_magnitude(active_id) < MAX_EXPONENTIAL {
        let squared = u128::MAX as int / base as int;
        lemma_div_is_ordered_by_denominator(u128::MAX as int, ONE as int, base as int);
        lemma_div_strictly_bounded_by_multiple(u128::MAX as int, ONE as int, ONE as int);
        assert(vstd::arithmetic::power2::pow2(19) == 0x80000) by {
            vstd::arithmetic::power2::lemma2_to64();
        }
        lemma_pow_steps_shrinks(ONE as int, squared, exponent_magnitude(active_id), exponent_bits());
        let result = pow_steps(ONE as int, squared, exponent_magnitude(active_id), exponent_bits());
        assert(result < ONE as int);
        if result > 0 && active_id > 0 {
            lemma_div_is_ordered_by_denominator(u128::MAX as int, result, ONE as int - 1);
            lemma_div_is_ordered_by_denominator(u128::MAX as int, 1, result);
            lemma_fundamental_div_mod_converse(u128::MAX as int, ONE as int - 1, ONE as int + 1, 0);
            assert(u128::MAX as int / result >= ONE as int + 1);
            assert(u128::MAX as int / result <= u128::MAX as int);
            assert(pow_spec(base, active_id) == Some((u128::MAX as int / result) as u128));
        }
        if result > 0 && active_id < 0 {
            assert(pow_spec(base, active_id) == Some(result as u128));
        }
    }
}

proof fn lemma_pow_steps_monotonic_in_result(low: int, high: int, squared: int, exp: nat, steps: nat)
    requires
        0 <= low <= high,
        0 <= squared,
    ensures
        pow_steps(low, squared, exp, steps) <= pow_steps(high, squared, exp, steps),
    decreases steps,
{
    if steps > 0 {
        assert(low * squared <= high * squared) by (nonlinear_arith)
            requires 0 <= low <= high, 0 <= squared;
        assert(low * squared >= 0) by (nonlinear_arith) requires 0 <= low, 0 <= squared;
        lemma_div_is_ordered(low * squared, high * squared, ONE as int);
        lemma_div_pos_is_pos(low * squared, ONE as int);
        assert(squared * squared >= 0) by (nonlinear_arith) requires 0 <= squared;
        lemma_div_pos_is_pos(squared * squared, ONE as int);
        let next_low = if exp % 2 == 1 { low * squared / (ONE as int) } else { low };
        let next_high = if exp % 2 == 1 { high * squared / (ONE as int) } else { high };
        lemma_pow_steps_monotonic_in_result(next_low, next_high, squared * squared / (ONE as int), exp / 2, (steps - 1) as nat);
    }
}

/// Raising the exponent by one never increases the truncated power of a
/// fraction below one, when the running result `start` is at least the
/// current squared factor.
proof fn lemma_pow_steps_next_exponent(start: int, squared: int, exp: nat, steps: nat)
    requires
        0 <= squared <= start <= ONE as int,
        squared < ONE as int,
        exp + 1 < vstd::arithmetic::power2::pow2(steps),
    ensures
        pow_steps(ONE as int, squared, exp + 1, steps) <= pow_steps(start, squared, exp, steps),
    decreases steps,
{
    if steps == 0 {
        vstd::arithmetic::power2::lemma2_to64();
    } else {
        vstd::arithmetic::power2::lemma_pow2_unfold(steps);
        let one = ONE as int;
        let next_squared = squared * squared / one;
        lemma_q64_product_bounds(squared, squared);
        lemma_q64_product_bounds(start, squared);
        assert(one * squared / one == squared) by {
            lemma_div_multiples_vanish(squared, one);
            assert(one * squared == squared * one) by (nonlinear_arith);
        }
        if exp % 2 == 0 {
            // exp + 1 sets the low bit that exp leaves clear
            assert((exp + 1) % 2 == 1 && (exp + 1) / 2 == exp / 2);
            lemma_pow_steps_monotonic_in_result(squared, start, next_squared, exp / 2, (steps - 1) as nat);
        } else {
            // exp + 1 clears the low bit and carries into the next one
            assert((exp + 1) % 2 == 0 && (exp + 1) / 2 == exp / 2 + 1);
            let next_start = start * squared / one;
            assert(squared * squared <= start * squared) by (nonlinear_arith)
                requires 0 <= squared <= start;
            lemma_div_is_ordered(squared * squared, start * squared, one);
            lemma_div_strictly_bounded_by_multiple((exp + 1) as int, 2, vstd::arithmetic::power2::pow2((steps - 1) as nat) as int);
            lemma_pow_steps_next_exponent(next_start, next_squared, exp / 2, (steps - 1) as nat);
        }
    }
}

/// The price of a bin never exceeds the price of the bin above it.
pub proof fn law_price_monotonic(active_id: i32, bin_step: u16)
    requires
        active_id < i32::MAX,
    ensures
        price_from_id_result(active_id, bin_step) is Ok && price_from_id_result((active_id + 1) as i32, bin_step) is Ok
            ==> price_from_id_result(active_id, bin_step)->Ok_0 <= price_from_id_result((active_id + 1) as i32, bin_step)->Ok_0,
{
    let next = (active_id + 1) as i32;
    law_price_sides_of_one(active_id, bin_step);
    law_price_sides_of_one(next, bin_step);
    let base = price_base(bin_step);
    assert(bin_step as int * ONE as int >= 0) by (nonlinear_arith) requires bin_step >= 0;
    lemma_div_pos_is_pos(bin_step as int * ONE as int, 10000);
    assert(bin_step as int * ONE as int <= 0xffff * 0x1_0000_0000_0000_0000int) by (nonlinear_arith)
        requires bin_step <= 0xffff;
    lemma_div_is_ordered(bin_step as int * ONE as int, 0xffff * 0x1_0000_0000_0000_0000int, 10000);
    assert(base >= ONE);
    let squared = u128::MAX as int / base as int;
    lemma_div_is_ordered_by_denominator(u128::MAX as int, ONE as int, base as int);
    lemma_div_strictly_bounded_by_multiple(u128::MAX as int, ONE as int, ONE as int);
    lemma_div_pos_is_pos(u128::MAX as int, base as int);
    assert(vstd::arithmetic::power2::pow2(19) == 0x80000) by {
        vstd::arithmetic::power2::lemma2_to64();
    }
    if active_id >= 1 && exponent_magnitude(next) < MAX_EXPONENTIAL {
        let e = active_id as nat;
        lemma_pow_steps_next_exponent(ONE as int, squared, e, exponent_bits());
        lemma_pow_steps_shrinks(ONE as int, squared, e, exponent_bits());
        lemma_pow_steps_shrinks(ONE as int, squared, e + 1, exponent_bits());
        let r = pow_steps(ONE as int, squared, e, exponent_bits());
        let r_next = pow_steps(ONE as int, squared, e + 1, exponent_bits());
        if r_next > 0 {
            lemma_div_is_ordered_by_denominator(u128::MAX as int, r_next, r);
            lemma_div_is_ordered_by_denominator(u128::MAX as int, 1, r_next);
            lemma_div_is_ordered_by_denominator(u128::MAX as int, 1, r);
            assert(pow_spec(base, active_id) == Some((u128::MAX as int / r) as u128));
            assert(pow_spec(base, next) == Some((u128::MAX as int / r_next) as u128));
        }
    } else if active_id <= -2 && exponent_magnitude(active_id) < MAX_EXPONENTIAL {
        let e = (-(active_id + 1)) as nat;
        lemma_pow_steps_next_exponent(ONE as int, squared, e, exponent_bits());
        lemma_pow_steps_shrinks(ONE as int, squared, e, exponent_bits());
        lemma_pow_steps_shrinks(ONE as int, squared, e + 1, exponent_bits());
    }
}


/// A lower bound, for bin steps of at most 100 basis points, of the factor
/// that [`pow`] squares into its `k`-th bit (`k <= 11`).
spec fn square_lower_bound(k: nat) -> int {
    if k == 0 {
        18264103043276783778
    } else if k == 1 {
        18083270339878003740
    } else if k == 2 {
        17726958474539754670
    } else if k == 3 {
        17035258661495792879
    } else if k == 4 {
        15731775564537856101
    } else if k == 5 {
        13416392693695651182
    } else if k == 6 {
        9757797484055027478
    } else if k == 7 {
        5161594445034408894
    } else if k == 8 {
        1444268815599851156
    } else if k == 9 {
        113077538419750510
    } else if k == 10 {
        693159163697273
    } else {
        26046310627
    }
}

/// A lower bound, for bin steps of at least one basis point, of how far two
/// running results that began `1.0` and the reciprocal base apart stay
/// apart after [`pow`] has processed `k` bits (`k <= 11`).
spec fn gap_lower_bound(k: nat) -> int {
    if k == 0 {
        1844489958375118
    } else if k == 1 {
        1826227681559522
    } else if k == 2 {
        1790243781550359
    } else if k == 3 {
        1720389085902483
    } else if k == 4 {
        1588750456972624
    } else if k == 5 {
        1354920170046254
    } else if k == 6 {
        985439001989357
    } else if k == 7 {
        521268912057268
    } else if k == 8 {
        145856564719112
    } else if k == 9 {
        11419689411453
    } else if k == 10 {
        70002075325
    } else {
        2630414
    }
}

/// Squaring preserves the square bounds, the gap bounds shrink by at most
/// the squared factor, and the gap bounds never grow.
proof fn lemma_bound_tables(k: nat)
    requires
        k < 11,
    ensures
        square_lower_bound(k + 1) * (ONE as int) <= square_lower_bound(k) * square_lower_bound(k),
        gap_lower_bound(k + 1) * (ONE as int) <= gap_lower_bound(k) * square_lower_bound(k),
        0 < gap_lower_bound(k + 1) <= gap_lower_bound(k),
        0 <= square_lower_bound(k + 1) <= square_lower_bound(k) < ONE as int,
{
}

/// `pow_steps` of a zero exponent leaves the running result alone.
proof fn lemma_pow_steps_zero_exponent(result: int, squared: int, steps: nat)
    ensures
        pow_steps(result, squared, 0, steps) == result,
    decreases steps,
{
    if steps > 0 {
        lemma_pow_steps_zero_exponent(result, squared * squared / (ONE as int), (steps - 1) as nat);
    }
}

/// Multiplying two results `gap` apart by a factor of at least `factor`
/// (truncated Q64.64 products) keeps them at least the truncated
/// `gap * factor` apart.
proof fn lemma_product_gap(a: int, b: int, sq: int, gap: int, factor: int, next_gap: int)
    requires
        0 <= b,
        a - b >= gap >= 0,
        sq >= factor >= 0,
        next_gap * (ONE as int) <= gap * factor,
    ensures
        a * sq / (ONE as int) - b * sq / (ONE as int) >= next_gap,
{
    let one = ONE as int;
    lemma_fundamental_div_mod(a * sq, one);
    lemma_fundamental_div_mod(b * sq, one);
    lemma_mod_pos_bound(a * sq, one);
    lemma_mod_pos_bound(b * sq, one);
    assert((a - b) * sq >= gap * factor) by (nonlinear_arith)
        requires a - b >= gap >= 0, sq >= factor >= 0;
    assert(a * sq - b * sq == (a - b) * sq) by (nonlinear_arith);
    assert((a * sq / one - b * sq / one) * one > next_gap * one - one) by (nonlinear_arith)
        requires
            a * sq == one * (a * sq / one) + (a * sq) % one,
            b * sq == one * (b * sq / one) + (b * sq) % one,
            0 <= (a * sq) % one < one,
            0 <= (b * sq) % one,
            a * sq - b * sq >= next_gap * one,
    ;
    assert(a * sq / one - b * sq / one > next_gap - 1) by (nonlinear_arith)
        requires
            (a * sq / one - b * sq / one) * one > next_gap * one - one,
            one > 0,
    ;
}

/// Two running results at least `gap_lower_bound(k)` apart before bit `k`,
/// continued over the same exponent bits (none at or above bit 11), end at
/// least `gap_lower_bound(11)` apart.
proof fn lemma_gap_persists(a: int, b: int, squared: int, exp: nat, steps: nat, k: nat)
    requires
        k + steps == 19,
        k <= 11,
        exp < vstd::arithmetic::power2::pow2((11 - k) as nat),
        0 <= b < a <= ONE as int,
        a - b >= gap_lower_bound(k),
        square_lower_bound(k) <= squared < ONE as int,
    ensures
        pow_steps(a, squared, exp, steps) - pow_steps(b, squared, exp, steps) >= gap_lower_bound(11),
    decreases steps,
{
    if k == 11 {
        vstd::arithmetic::power2::lemma2_to64();
        lemma_pow_steps_zero_exponent(a, squared, steps);
        lemma_pow_steps_zero_exponent(b, squared, steps);
    } else {
        lemma_bound_tables(k);
        vstd::arithmetic::power2::lemma_pow2_unfold((11 - k) as nat);
        let one = ONE as int;
        lemma_q64_product_bounds(a, squared);
        lemma_q64_product_bounds(b, squared);
        lemma_q64_product_bounds(squared, squared);
        let next_squared = squared * squared / one;
        assert(squared * squared >= square_lower_bound(k) * square_lower_bound(k)) by (nonlinear_arith)
            requires squared >= square_lower_bound(k) >= 0;
        lemma_div_is_ordered(square_lower_bound(k + 1) * one, squared * squared, one);
        lemma_div_multiples_vanish(square_lower_bound(k + 1), one);
        assert(square_lower_bound(k + 1) * one == one * square_lower_bound(k + 1)) by (nonlinear_arith);
        let next_a = if exp % 2 == 1 { a * squared / one } else { a };
        let next_b = if exp % 2 == 1 { b * squared / one } else { b };
        if exp % 2 == 1 {
            lemma_product_gap(a, b, squared, gap_lower_bound(k), square_lower_bound(k), gap_lower_bound(k + 1));
            assert(b * squared >= 0) by (nonlinear_arith) requires b >= 0, squared >= 0;
            lemma_div_pos_is_pos(b * squared, one);
        }
        lemma_div_strictly_bounded_by_multiple(
            exp as int,
            2,
            vstd::arithmetic::power2::pow2((11 - k - 1) as nat) as int,
        );
        lemma_gap_persists(next_a, next_b, next_squared, exp / 2, (steps - 1) as nat, k + 1);
    }
}

/// With a running result `start` at least `gap_lower_bound(k)` above the
/// factor squared into bit `k`, raising the exponent by one lowers the
/// truncated power by at least `gap_lower_bound(11)` (exponents below
/// `2^(11 - k)`).
proof fn lemma_next_exponent_gap(start: int, squared: int, exp: nat, steps: nat, k: nat)
    requires
        k + steps == 19,
        k <= 10,
        exp + 1 < vstd::arithmetic::power2::pow2((11 - k) as nat),
        0 <= squared < start <= ONE as int,
        start - squared >= gap_lower_bound(k),
        square_lower_bound(k) <= squared < ONE as int,
    ensures
        pow_steps(start, squared, exp, steps) - pow_steps(ONE as int, squared, exp + 1, steps) >= gap_lower_bound(11),
    decreases steps,
{
    let one = ONE as int;
    lemma_bound_tables(k);
    vstd::arithmetic::power2::lemma_pow2_unfold((11 - k) as nat);
    lemma_q64_product_bounds(start, squared);
    lemma_q64_product_bounds(squared, squared);
    let next_squared = squared * squared / one;
    assert(squared * squared >= square_lower_bound(k) * square_lower_bound(k)) by (nonlinear_arith)
        requires squared >= square_lower_bound(k) >= 0;
    lemma_div_is_ordered(square_lower_bound(k + 1) * one, squared * squared, one);
    lemma_div_multiples_vanish(square_lower_bound(k + 1), one);
    assert(square_lower_bound(k + 1) * one == one * square_lower_bound(k + 1)) by (nonlinear_arith);
    assert(one * squared / one == squared) by {
        lemma_div_multiples_vanish(squared, one);
        assert(one * squared == squared * one) by (nonlinear_arith);
    }
    lemma_div_strictly_bounded_by_multiple(
        (exp + 1) as int,
        2,
        vstd::arithmetic::power2::pow2((11 - k - 1) as nat) as int,
    );
    if exp % 2 == 0 {
        assert((exp + 1) % 2 == 1 && (exp + 1) / 2 == exp / 2);
        lemma_gap_persists(start, squared, next_squared, exp / 2, (steps - 1) as nat, k + 1);
    } else {
        assert((exp + 1) % 2 == 0 && (exp + 1) / 2 == exp / 2 + 1);
        let next_start = start * squared / one;
        lemma_product_gap(start, squared, squared, gap_lower_bound(k), square_lower_bound(k), gap_lower_bound(k + 1));
        if k == 10 {
            vstd::arithmetic::power2::lemma2_to64();
        }
        lemma_next_exponent_gap(next_start, next_squared, exp / 2, (steps - 1) as nat, k + 1);
    }
}

/// `pow_steps` from a zero running result stays zero.
proof fn lemma_pow_steps_from_zero(squared: int, exp: nat, steps: nat)
    ensures
        pow_steps(0, squared, exp, steps) == 0,
    decreases steps,
{
    if steps > 0 {
        assert(0 * squared == 0);
        lemma_pow_steps_from_zero(squared * squared / (ONE as int), exp / 2, (steps - 1) as nat);
    }
}

/// Inverting two distinct positive Q64.64 results of at most `1.0` keeps
/// them distinct, in the opposite order.
proof fn lemma_reciprocal_strict(r: int, r_next: int)
    requires
        0 < r_next < r <= ONE as int,
    ensures
        u128::MAX as int / r < u128::MAX as int / r_next,
{
    let max = u128::MAX as int;
    let q = max / r;
    lemma_div_is_ordered_by_denominator(max, r, ONE as int);
    lemma_fundamental_div_mod_converse(max, ONE as int, ONE as int - 1, ONE as int - 1);
    lemma_fundamental_div_mod(max, r);
    lemma_mod_pos_bound(max, r);
    assert((q + 1) * (r - 1) <= max) by (nonlinear_arith)
        requires
            max == r * q + max % r,
            max % r >= 0,
            q >= r - 1,
            r >= 2,
    ;
    lemma_div_is_ordered((q + 1) * (r - 1), max, r - 1);
    lemma_div_multiples_vanish(q + 1, r - 1);
    assert((q + 1) * (r - 1) == (r - 1) * (q + 1)) by (nonlinear_arith);
    lemma_div_is_ordered_by_denominator(max, r_next, r - 1);
}

/// For bin steps of 1 to 100 basis points, every bin id from -2000 to 2000
/// has a price, and the price strictly increases from each bin to the next.
pub proof fn law_price_strictly_increasing(active_id: i32, bin_step: u16)
    requires
        -2000 <= active_id < 2000,
        1 <= bin_step <= 100,
    ensures
        price_from_id_result(active_id, bin_step) is Ok,
        price_from_id_result((active_id + 1) as i32, bin_step) is Ok,
        price_from_id_result(active_id, bin_step)->Ok_0 < price_from_id_result((active_id + 1) as i32, bin_step)->Ok_0,
{
    let one = ONE as int;
    let max = u128::MAX as int;
    let next = (active_id + 1) as i32;
    law_price_sides_of_one(active_id, bin_step);
    law_price_sides_of_one(next, bin_step);
    let base = price_base(bin_step);
    lemma_div_is_ordered(one, bin_step as int * one, 10000);
    lemma_div_is_ordered(bin_step as int * one, 100 * one, 10000);
    assert(base as int == one + (bin_step as int * one) / 10000);
    lemma_div_is_ordered_by_denominator(max, 18448588748116922571, base as int);
    lemma_div_is_ordered_by_denominator(max, base as int, 18631211514446647132);
    let squared = max / (base as int);
    assert(squared <= 18444899583751176498);
    assert(squared >= 18264103043276783778);
    assert(vstd::arithmetic::power2::pow2(11) == 2048 && vstd::arithmetic::power2::pow2(19) == 0x80000) by {
        vstd::arithmetic::power2::lemma2_to64();
    }
    // Every exponent below 2048 leaves a positive truncated power.
    assert forall|e: nat| e < 2048 implies pow_steps(one, squared, e, exponent_bits()) >= gap_lower_bound(11) by {
        lemma_pow_steps_from_zero(squared, e, exponent_bits());
        lemma_gap_persists(one, 0, squared, e, exponent_bits(), 0);
    }
    if active_id >= 1 {
        let e = active_id as nat;
        lemma_next_exponent_gap(one, squared, e, exponent_bits(), 0);
        let r = pow_steps(one, squared, e, exponent_bits());
        let r_next = pow_steps(one, squared, e + 1, exponent_bits());
        assert(r >= gap_lower_bound(11) && r_next >= gap_lower_bound(11));
        lemma_pow_steps_shrinks(one, squared, e, exponent_bits());
        lemma_reciprocal_strict(r, r_next);
        lemma_div_is_ordered_by_denominator(max, 1, r_next);
        lemma_div_is_ordered_by_denominator(max, 1, r);
        assert(pow_spec(base, active_id) == Some((max / r) as u128));
        assert(pow_spec(base, next) == Some((max / r_next) as u128));
    } else if active_id == 0 {
        assert(pow_steps(one, squared, 1, exponent_bits()) >= gap_lower_bound(11));
        let r1 = pow_steps(one, squared, 1, exponent_bits());
        lemma_div_is_ordered_by_denominator(max, 1, r1);
        assert(pow_spec(base, next) == Some((max / r1) as u128));
    } else if active_id == -1 {
        assert(pow_steps(one, squared, 1, exponent_bits()) >= gap_lower_bound(11));
        assert(pow_spec(base, active_id) == Some(pow_steps(one, squared, 1, exponent_bits()) as u128)) by {
            lemma_pow_steps_shrinks(one, squared, 1, exponent_bits());
        }
    } else {
        let e = (-(active_id + 1)) as nat;
        lemma_next_exponent_gap(one, squared, e, exponent_bits(), 0);
        let r = pow_steps(one, squared, e, exponent_bits());
        let r_next = pow_steps(one, squared, e + 1, exponent_bits());
        assert(r >= gap_lower_bound(11) && r_next >= gap_lower_bound(11));
        lemma_pow_steps_shrinks(one, squared, e, exponent_bits());
        lemma_pow_steps_shrinks(one, squared, e + 1, exponent_bits());
        assert(exponent_magnitude(active_id) == e + 1);
        assert(exponent_magnitude(next) == e);
        assert(pow_spec(base, active_id) == Some(r_next as u128));
        assert(pow_spec(base, next) == Some(r as u128));
    }
}

} // verus!
