//! Per-bin swap primitives: the bin's reserves and limit orders, and the
//! conversion of amounts through a bin's Q64.64 price.
//!
//! `swap_for_y == true` means the user puts token X in and takes token Y
//! out; amounts of Y are amounts of X times the price.
use crate::bin_math::{get_price_from_id, price_from_id_result, SCALE_OFFSET};
use crate::error::ErrorCode;
use crate::full_math::{mul_shr_u64_result, safe_mul_shr_u64, safe_shl_div_u64, shl_div_u64_result};
use crate::u128x128_math::Rounding;
use vstd::arithmetic::div_mod::*;
use vstd::arithmetic::power2::*;
use vstd::prelude::*;

verus! {

/// The state of one bin that the swap path reads.
#[derive(Debug, Clone, Copy, PartialEq, Eq, Default, Structural)]
pub struct BinView {
    /// Id of the bin.
    pub bin_id: i32,
    /// Reserve of token X in this bin.
    pub amount_x: u64,
    /// Reserve of token Y in this bin.
    pub amount_y: u64,
    /// Stored Q64.64 price of the bin, or 0 when it was never initialized.
    pub price: u128,
    /// Non-zero when the bin's limit orders sit on the ask side.
    pub limit_order_ask_side: u8,
    /// Open (unfilled) limit-order amount resting in this bin.
    pub open_order_amount: u64,
    /// Remaining amount of processed (partially filled) limit orders.
    pub processed_order_remaining_amount: u64,
}

/// Bin state and outcome of [`get_or_store_bin_price`]: a zero price is
/// replaced by the price of the bin's id.
pub open spec fn stored_price_result(bin: BinView, bin_step: u16) -> (BinView, Result<u128, ErrorCode>) {
    if bin.price == 0 {
        match price_from_id_result(bin.bin_id, bin_step) {
            Ok(price) => (BinView { price, ..bin }, Ok(price)),
            Err(e) => (bin, Err(e)),
        }
    } else {
        (bin, Ok(bin.price))
    }
}

/// Resolve the bin's price, computing and storing it from `bin_id` and
/// `bin_step` when the stored price is 0.
pub fn get_or_store_bin_price(bin: &mut BinView, bin_step: u16) -> (res: Result<u128, ErrorCode>)
    ensures
        (*final(bin), res) == stored_price_result(*old(bin), bin_step),
{
    if bin.price == 0 {
        match get_price_from_id(bin.bin_id, bin_step) {
            Ok(price) => {
                bin.price = price;
            },
            Err(e) => {
                return Err(e);
            },
        }
    }
    Ok(bin.price)
}

/// Whether the bin's limit orders can be filled by a swap in this direction:
/// selling X for Y fills bid-side orders, selling Y for X fills ask-side ones.
pub open spec fn limit_orders_match(bin: BinView, swap_for_y: bool) -> bool {
    swap_for_y == (bin.limit_order_ask_side == 0)
}

/// `(open_order_amount, processed_order_remaining_amount)` of the limit
/// orders matching the swap direction, `(0, 0)` when none match.
pub open spec fn limit_order_amounts(bin: BinView, swap_for_y: bool) -> (u64, u64) {
    if limit_orders_match(bin, swap_for_y) {
        (bin.open_order_amount, bin.processed_order_remaining_amount)
    } else {
        (0, 0)
    }
}

/// Limit-order amounts available to a swap in the given direction.
pub fn get_limit_order_amounts_by_direction(bin: &BinView, swap_for_y: bool) -> (res: (u64, u64))
    ensures
        res == limit_order_amounts(*bin, swap_for_y),
{
    let is_ask_side = bin.limit_order_ask_side != 0;
    if (swap_for_y && !is_ask_side) || (!swap_for_y && is_ask_side) {
        (bin.open_order_amount, bin.processed_order_remaining_amount)
    } else {
        (0, 0)
    }
}

/// The market-maker reserve of the output token.
pub open spec fn max_amount_out(bin: BinView, swap_for_y: bool) -> u64 {
    if swap_for_y { bin.amount_y } else { bin.amount_x }
}

/// Output liquidity of a bin: the market-maker reserve plus, when limit
/// orders are supported, the matching limit-order amounts; saturating at
/// `u64::MAX`.
pub open spec fn max_amount_out_with_limit_orders(bin: BinView, swap_for_y: bool, support_limit_order: bool) -> u64 {
    let mm = max_amount_out(bin, swap_for_y);
    if !support_limit_order {
        mm
    } else {
        let total = mm + limit_order_amounts(bin, swap_for_y).0 + limit_order_amounts(bin, swap_for_y).1;
        if total > u64::MAX { u64::MAX } else { total as u64 }
    }
}

/// Maximum amount out including market-maker liquidity and limit orders.
pub fn get_max_amount_out_with_limit_orders(bin: &BinView, swap_for_y: bool, support_limit_order: bool) -> (res: u64)
    ensures
        res == max_amount_out_with_limit_orders(*bin, swap_for_y, support_limit_order),
{
    let mm_amount = get_max_amount_out(bin, swap_for_y);
    if !support_limit_order {
        return mm_amount;
    }
    let (open_order, processed_remaining) = get_limit_order_amounts_by_direction(bin, swap_for_y);
    mm_amount.saturating_add(open_order).saturating_add(processed_remaining)
}

/// Maximum output the bin's market-maker reserve can produce.
pub fn get_max_amount_out(bin: &BinView, swap_for_y: bool) -> (res: u64)
    ensures
        res == max_amount_out(*bin, swap_for_y),
{
    if swap_for_y {
        bin.amount_y
    } else {
        bin.amount_x
    }
}

/// Input converted to output at `price`: `amount_in * price / 2^64` when
/// selling X for Y, `amount_in * 2^64 / price` otherwise.
pub open spec fn amount_out_result(amount_in: u64, price: u128, swap_for_y: bool, rounding: Rounding) -> Result<u64, ErrorCode> {
    if swap_for_y {
        mul_shr_u64_result(price as int, amount_in as int, SCALE_OFFSET as int, rounding)
    } else {
        shl_div_u64_result(amount_in as int, price as int, SCALE_OFFSET as int, rounding)
    }
}

/// Input needed for an output at `price`: `amount_out * 2^64 / price` when
/// selling X for Y, `amount_out * price / 2^64` otherwise.
pub open spec fn amount_in_result(amount_out: u64, price: u128, swap_for_y: bool, rounding: Rounding) -> Result<u64, ErrorCode> {
    if swap_for_y {
        shl_div_u64_result(amount_out as int, price as int, SCALE_OFFSET as int, rounding)
    } else {
        mul_shr_u64_result(amount_out as int, price as int, SCALE_OFFSET as int, rounding)
    }
}

/// Input (before fees) that drains the bin's output reserve at `price`,
/// rounded up.
pub fn get_max_amount_in(bin: &BinView, price: u128, swap_for_y: bool) -> (res: Result<u64, ErrorCode>)
    ensures
        res == amount_in_result(max_amount_out(*bin, swap_for_y), price, swap_for_y, Rounding::Up),
{
    if swap_for_y {
        safe_shl_div_u64(bin.amount_y as u128, price, SCALE_OFFSET, Rounding::Up)
    } else {
        safe_mul_shr_u64(bin.amount_x as u128, price, SCALE_OFFSET, Rounding::Up)
    }
}

/// Output produced by an input (after fees) at `price`.
pub fn get_amount_out(amount_in: u64, price: u128, swap_for_y: bool, rounding: Rounding) -> (res: Result<u64, ErrorCode>)
    ensures
        res == amount_out_result(amount_in, price, swap_for_y, rounding),
{
    if swap_for_y {
        safe_mul_shr_u64(price, amount_in as u128, SCALE_OFFSET, rounding)
    } else {
        safe_shl_div_u64(amount_in as u128, price, SCALE_OFFSET, rounding)
    }
}

/// Input (before fees) required to obtain an output at `price`.
pub fn get_amount_in(amount_out: u64, price: u128, swap_for_y: bool, rounding: Rounding) -> (res: Result<u64, ErrorCode>)
    ensures
        res == amount_in_result(amount_out, price, swap_for_y, rounding),
{
    if swap_for_y {
        safe_shl_div_u64(amount_out as u128, price, SCALE_OFFSET, rounding)
    } else {
        safe_mul_shr_u64(amount_out as u128, price, SCALE_OFFSET, rounding)
    }
}

/// `a < ceil(n / d)` implies `a * d < n`.
proof fn lemma_below_ceiling(a: int, n: int, d: int)
    requires
        a >= 0,
        n >= 0,
        d > 0,
        a < (n + d - 1) / d,
    ensures
        a * d < n,
{
    lemma_fundamental_div_mod(n + d - 1, d);
    lemma_mod_pos_bound(n + d - 1, d);
    assert(a * d < n) by (nonlinear_arith)
        requires
            a + 1 <= (n + d - 1) / d,
            n + d - 1 == d * ((n + d - 1) / d) + (n + d - 1) % d,
            (n + d - 1) % d >= 0,
            d > 0,
    ;
}

/// `m < k * d` implies `m / d < k`.
proof fn lemma_floor_below(m: int, k: int, d: int)
    requires
        m >= 0,
        d > 0,
        m < k * d,
    ensures
        m / d < k,
{
    lemma_fundamental_div_mod(m, d);
    lemma_mod_pos_bound(m, d);
    assert(m / d < k) by (nonlinear_arith)
        requires
            m == d * (m / d) + m % d,
            m % d >= 0,
            m < k * d,
            d > 0,
    ;
}

/// An input smaller than the input that yields `max_amount_out` (rounded
/// up) yields less than `max_amount_out` (rounded down).
pub proof fn lemma_partial_input_yields_less(amount: u64, max_amount_out: u64, price: u128, swap_for_y: bool)
    requires
        amount_in_result(max_amount_out, price, swap_for_y, Rounding::Up) matches Ok(max_amount_in) && amount < max_amount_in,
    ensures
        amount_out_result(amount, price, swap_for_y, Rounding::Down) matches Ok(out) ==> out < max_amount_out,
{
    lemma2_to64_rest();
    let scale = pow2(64) as int;
    if amount_out_result(amount, price, swap_for_y, Rounding::Down) is Ok {
        if swap_for_y {
            lemma_below_ceiling(amount as int, max_amount_out * scale, price as int);
            assert(price as int * amount as int == amount as int * price as int) by (nonlinear_arith);
            lemma_floor_below(price as int * amount as int, max_amount_out as int, scale);
        } else {
            lemma_below_ceiling(amount as int, max_amount_out * price, scale);
            assert(max_amount_out as int * price as int == price as int * max_amount_out as int) by (nonlinear_arith);
            lemma_floor_below(amount as int * scale, max_amount_out as int, price as int);
        }
    }
}

/// Converting an input to output at a price (rounded down) and that output
/// back to the input it needs (rounded up) never asks for more than the
/// input it started from.
pub proof fn law_round_trip_never_exceeds_input(amount_in: u64, price: u128, swap_for_y: bool)
    requires
        price > 0,
    ensures
        amount_out_result(amount_in, price, swap_for_y, Rounding::Down) matches Ok(out)
            ==> amount_in_result(out, price, swap_for_y, Rounding::Up) matches Ok(back) && back <= amount_in,
{
    lemma2_to64_rest();
    let scale = pow2(64) as int;
    if let Ok(out) = amount_out_result(amount_in, price, swap_for_y, Rounding::Down) {
        let a = amount_in as int;
        let p = price as int;
        let o = out as int;
        if swap_for_y {
            // out = floor(p * a / 2^64), back = ceil(out * 2^64 / p)
            assert(o == p * a / scale);
            lemma_ceiling_of_floor_product(p, a, scale);
            assert(o * scale == scale * o) by (nonlinear_arith);
        } else {
            // out = floor(a * 2^64 / p), back = ceil(out * p / 2^64)
            assert(p > 0);
            assert(o == a * scale / p);
            lemma_ceiling_of_floor_product(scale, a, p);
            assert(o * p == p * o) by (nonlinear_arith);
            assert(scale * a == a * scale) by (nonlinear_arith);
        }
    }
}

/// With `o = floor(m * a / d)`: `ceil(o * d / m) <= a`.
proof fn lemma_ceiling_of_floor_product(m: int, a: int, d: int)
    requires
        m > 0,
        a >= 0,
        d > 0,
    ensures
        ((m * a / d) * d + m - 1) / m <= a,
{
    let o = m * a / d;
    assert(m * a >= 0) by (nonlinear_arith) requires m > 0, a >= 0;
    lemma_fundamental_div_mod(m * a, d);
    lemma_mod_pos_bound(m * a, d);
    assert(o * d <= m * a) by (nonlinear_arith)
        requires m * a == d * o + (m * a) % d, (m * a) % d >= 0;
    assert(o * d + m - 1 < (a + 1) * m) by (nonlinear_arith)
        requires o * d <= m * a, m > 0;
    lemma_div_pos_is_pos(m * a, d);
    assert(o * d + m - 1 >= 0) by (nonlinear_arith) requires o >= 0, d > 0, m > 0;
    lemma_floor_below(o * d + m - 1, a + 1, m);
}

/// The input needed for an output (rounded up), converted back to output
/// (rounded down), yields at least that output.
pub proof fn law_required_input_delivers_output(amount_out: u64, price: u128, swap_for_y: bool)
    ensures
        amount_in_result(amount_out, price, swap_for_y, Rounding::Up) matches Ok(needed)
            ==> (amount_out_result(needed, price, swap_for_y, Rounding::Down) matches Ok(delivered)
                ==> delivered >= amount_out),
{
    lemma2_to64_rest();
    let scale = pow2(64) as int;
    if let Ok(needed) = amount_in_result(amount_out, price, swap_for_y, Rounding::Up) {
        if amount_out_result(needed, price, swap_for_y, Rounding::Down) is Ok {
            let o = amount_out as int;
            let p = price as int;
            let n = needed as int;
            if swap_for_y {
                // needed = ceil(o * 2^64 / p), delivered = floor(p * needed / 2^64)
                lemma_ceiling_times_divisor(o * scale, p);
                assert(p * n == n * p) by (nonlinear_arith);
                lemma_floor_at_least(p * n, o, scale);
            } else {
                // needed = ceil(o * p / 2^64), delivered = floor(needed * 2^64 / p)
                lemma_ceiling_times_divisor(o * p, scale);
                lemma_floor_at_least(n * scale, o, p);
            }
        }
    }
}

/// `ceil(m / d) * d >= m`.
proof fn lemma_ceiling_times_divisor(m: int, d: int)
    requires
        m >= 0,
        d > 0,
    ensures
        ((m + d - 1) / d) * d >= m,
{
    lemma_fundamental_div_mod(m + d - 1, d);
    lemma_mod_pos_bound(m + d - 1, d);
    assert(((m + d - 1) / d) * d >= m) by (nonlinear_arith)
        requires
            m + d - 1 == d * ((m + d - 1) / d) + (m + d - 1) % d,
            (m + d - 1) % d < d,
    ;
}

/// `x >= k * d` implies `x / d >= k`.
proof fn lemma_floor_at_least(x: int, k: int, d: int)
    requires
        d > 0,
        x >= k * d,
    ensures
        x / d >= k,
{
    lemma_fundamental_div_mod(x, d);
    lemma_mod_bound(x, d);
    assert(x / d >= k) by (nonlinear_arith)
        requires x == d * (x / d) + x % d, x % d < d, x >= k * d, d > 0;
}

} // verus!
