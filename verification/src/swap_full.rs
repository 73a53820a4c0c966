//! The per-bin swap steps and the multi-bin swap orchestrators.
//!
//! A bin's liquidity is consumed in three layers: market-maker reserves
//! first, then processed limit orders, then open limit orders (the last two
//! only on pools that support limit orders). The orchestrators walk a
//! caller-supplied slice of bins sorted by ascending `bin_id`: an id absent
//! from the slice is an empty bin, and walking past the last supplied bin
//! in the swap direction with an amount remaining fails with
//! [`ErrorCode::PoolOutOfLiquidity`]. They work on a copy of the pool and
//! return the post-swap state, with `last_update_timestamp` set to the
//! swap's timestamp.
use crate::bin_math::BASIS_POINT_MAX;
use crate::dynamic_fee::{
    advance_active_bin, advance_active_bin_result, compute_fee, compute_fee_from_amount,
    compute_fee_from_amount_result, compute_fee_result, fee_charged_on_input, fee_on_input,
    is_support_limit_order, next_volatility_accumulator, supports_limit_order, update_references,
    update_references_result, update_volatility_accumulator, with_volatility_accumulator, PoolView,
    VariableParameters, LIMIT_ORDER_FEE_SHARE,
};
use crate::error::ErrorCode;
use crate::swap_math::{
    amount_in_result, amount_out_result, get_amount_in, get_amount_out,
    get_limit_order_amounts_by_direction, get_max_amount_out_with_limit_orders,
    get_or_store_bin_price, lemma_partial_input_yields_less, limit_order_amounts, max_amount_out,
    max_amount_out_with_limit_orders, stored_price_result, BinView,
};
use crate::u128x128_math::Rounding;
use vstd::arithmetic::div_mod::*;
use vstd::prelude::*;

verus! {

/// Result of an exact-in swap across bins.
#[derive(Debug, Clone, Copy, PartialEq, Eq, Structural)]
pub struct SwapExactInQuote {
    pub amount_out: u64,
    pub fee: u64,
    pub protocol_fee: u64,
    /// Post-swap pool state (active bin and volatility parameters).
    pub pool_after: PoolView,
}

/// Result of an exact-out swap across bins; `amount_in` includes fees.
#[derive(Debug, Clone, Copy, PartialEq, Eq, Structural)]
pub struct SwapExactOutQuote {
    pub amount_in: u64,
    pub fee: u64,
    pub protocol_fee: u64,
    /// Post-swap pool state (active bin and volatility parameters).
    pub pool_after: PoolView,
}

/// Result of a swap step inside one bin.
#[derive(Debug, Clone, Copy, PartialEq, Eq, Structural)]
pub struct BinQuoteResult {
    /// Amount of input consumed (includes the trading fee when charged on input).
    pub amount_in: u64,
    /// Amount of output produced (excludes the trading fee when charged on output).
    pub amount_out: u64,
    /// Total trading fee.
    pub fee: u64,
    /// Protocol portion of the trading fee.
    pub protocol_fee: u64,
}

/// Fill of one liquidity layer.
struct FillResult {
    amount_in: u64,
    amount_left: u64,
    out_amount: u64,
}

/// Fill across all liquidity layers of a bin.
struct ExactInFillResult {
    amount_in: u64,
    amount_left: u64,
    out_amount: u64,
    mm_amount_in: u64,
}

/// Fill of one layer holding `max_amount_out` of output liquidity with up to
/// `amount` of input, as `(amount_in, amount_left, out_amount)`: the whole
/// layer when `amount` covers the input that drains it (rounded up),
/// otherwise all of `amount`, converted at the bin's price rounded down.
#[verifier::opaque]
pub open spec fn layer_fill(bin: BinView, amount: u64, max_amount_out: u64, swap_for_y: bool) -> Result<(u64, u64, u64), ErrorCode> {
    if max_amount_out == 0 {
        Ok((0, amount, 0))
    } else {
        match amount_in_result(max_amount_out, bin.price, swap_for_y, Rounding::Up) {
            Err(e) => Err(e),
            Ok(max_amount_in) => if amount >= max_amount_in {
                Ok((max_amount_in, (amount - max_amount_in) as u64, max_amount_out))
            } else {
                match amount_out_result(amount, bin.price, swap_for_y, Rounding::Down) {
                    Err(e) => Err(e),
                    Ok(out_amount) => Ok((amount, 0, out_amount)),
                }
            },
        }
    }
}

fn calculate_exact_in_fill_amount(bin: &BinView, amount: u64, max_amount_out: u64, swap_for_y: bool) -> (res: Result<FillResult, ErrorCode>)
    ensures
        match res {
            Ok(fill) => layer_fill(*bin, amount, max_amount_out, swap_for_y)
                == Ok::<(u64, u64, u64), ErrorCode>((fill.amount_in, fill.amount_left, fill.out_amount)),
            Err(e) => layer_fill(*bin, amount, max_amount_out, swap_for_y) == Err::<(u64, u64, u64), ErrorCode>(e),
        },
        max_amount_out == 0 ==> (res matches Ok(fill) && fill.amount_in == 0 && fill.amount_left == amount && fill.out_amount == 0),
        res matches Ok(fill) ==> fill.amount_in + fill.amount_left == amount
            && fill.out_amount <= max_amount_out
            && (fill.amount_left > 0 ==> fill.out_amount == max_amount_out
                && (max_amount_out > 0 ==> amount_in_result(max_amount_out, bin.price, swap_for_y, Rounding::Up)
                    == Ok::<u64, ErrorCode>(fill.amount_in))),
{
    proof {
        lemma_layer_fill_properties(*bin, amount, max_amount_out, swap_for_y);
    }
    reveal(layer_fill);
    if max_amount_out == 0 {
        return Ok(FillResult { amount_in: 0, amount_left: amount, out_amount: 0 });
    }
    let max_amount_in = match get_amount_in(max_amount_out, bin.price, swap_for_y, Rounding::Up) {
        Ok(v) => v,
        Err(e) => {
            return Err(e);
        },
    };
    if amount >= max_amount_in {
        Ok(FillResult { amount_in: max_amount_in, amount_left: amount - max_amount_in, out_amount: max_amount_out })
    } else {
        match get_amount_out(amount, bin.price, swap_for_y, Rounding::Down) {
            Ok(out_amount) => Ok(FillResult { amount_in: amount, amount_left: 0, out_amount }),
            Err(e) => Err(e),
        }
    }
}

/// Fill of all of a bin's layers with `amount_in`, as `(amount_in,
/// amount_left, out_amount, mm_amount_in)`: market-maker reserves, then
/// (with limit orders supported and input left) processed limit orders,
/// then open limit orders. An error when the summed output exceeds
/// `u64::MAX`.
#[verifier::opaque]
pub open spec fn bin_fill(bin: BinView, amount_in: u64, swap_for_y: bool, support_limit_order: bool) -> Result<(u64, u64, u64, u64), ErrorCode> {
    match layer_fill(bin, amount_in, max_amount_out(bin, swap_for_y), swap_for_y) {
        Err(e) => Err(e),
        Ok((mm_in, mm_left, mm_out)) => if !support_limit_order {
            Ok((mm_in, mm_left, mm_out, mm_in))
        } else if mm_left == 0 {
            Ok((mm_in, (amount_in - mm_in) as u64, mm_out, mm_in))
        } else {
            let (open_amount, processed_amount) = limit_order_amounts(bin, swap_for_y);
            match layer_fill(bin, mm_left, processed_amount, swap_for_y) {
                Err(e) => Err(e),
                Ok((p_in, p_left, p_out)) => if mm_out + p_out > u64::MAX {
                    Err(ErrorCode::MathOverflow)
                } else if p_left == 0 {
                    Ok(((mm_in + p_in) as u64, (amount_in - (mm_in + p_in)) as u64, (mm_out + p_out) as u64, mm_in))
                } else {
                    match layer_fill(bin, p_left, open_amount, swap_for_y) {
                        Err(e) => Err(e),
                        Ok((o_in, o_left, o_out)) => if mm_out + p_out + o_out > u64::MAX {
                            Err(ErrorCode::MathOverflow)
                        } else {
                            Ok((
                                (mm_in + p_in + o_in) as u64,
                                (amount_in - (mm_in + p_in + o_in)) as u64,
                                (mm_out + p_out + o_out) as u64,
                                mm_in,
                            ))
                        },
                    }
                },
            }
        },
    }
}

/// A layer fill conserves the input, pays out at most the layer, and when
/// input is left over it drained the layer for exactly the input that
/// drains it (rounded up).
pub proof fn lemma_layer_fill_properties(bin: BinView, amount: u64, max_amount_out: u64, swap_for_y: bool)
    ensures
        max_amount_out == 0 ==> layer_fill(bin, amount, max_amount_out, swap_for_y) == Ok::<(u64, u64, u64), ErrorCode>((0, amount, 0)),
        layer_fill(bin, amount, max_amount_out, swap_for_y) matches Ok((filled, left, out))
            ==> filled + left == amount && out <= max_amount_out
                && (left > 0 ==> out == max_amount_out
                    && (max_amount_out > 0 ==> amount_in_result(max_amount_out, bin.price, swap_for_y, Rounding::Up)
                        == Ok::<u64, ErrorCode>(filled))),
{
    reveal(layer_fill);
    if max_amount_out > 0 {
        if let Ok(max_amount_in) = amount_in_result(max_amount_out, bin.price, swap_for_y, Rounding::Up) {
            if amount < max_amount_in {
                lemma_partial_input_yields_less(amount, max_amount_out, bin.price, swap_for_y);
            }
        }
    }
}

/// A fill of a bin's layers conserves the input, takes the market-maker
/// input first (all of it without limit orders), pays out at most the
/// bin's output liquidity, and leaves input over only after paying all of
/// that liquidity out.
pub proof fn lemma_bin_fill_properties(bin: BinView, amount: u64, swap_for_y: bool, support_limit_order: bool)
    ensures
        bin_fill(bin, amount, swap_for_y, support_limit_order) matches Ok((filled, left, out, mm_filled))
            ==> filled + left == amount && mm_filled <= filled
                && (!support_limit_order ==> mm_filled == filled)
                && out <= max_amount_out_with_limit_orders(bin, swap_for_y, support_limit_order)
                && (left > 0 ==> out == max_amount_out_with_limit_orders(bin, swap_for_y, support_limit_order)),
{
    reveal(bin_fill);
    let mm = max_amount_out(bin, swap_for_y);
    lemma_layer_fill_properties(bin, amount, mm, swap_for_y);
    if let Ok((mm_in, mm_left, mm_out)) = layer_fill(bin, amount, mm, swap_for_y) {
        let (open_amount, processed_amount) = limit_order_amounts(bin, swap_for_y);
        lemma_layer_fill_properties(bin, mm_left, processed_amount, swap_for_y);
        if let Ok((p_in, p_left, p_out)) = layer_fill(bin, mm_left, processed_amount, swap_for_y) {
            lemma_layer_fill_properties(bin, p_left, open_amount, swap_for_y);
        }
    }
}

fn get_exact_in_fill_amount_result(bin: &BinView, amount_in: u64, swap_for_y: bool, support_limit_order: bool) -> (res: Result<ExactInFillResult, ErrorCode>)
    ensures
        match res {
            Ok(fill) => bin_fill(*bin, amount_in, swap_for_y, support_limit_order)
                == Ok::<(u64, u64, u64, u64), ErrorCode>((fill.amount_in, fill.amount_left, fill.out_amount, fill.mm_amount_in)),
            Err(e) => bin_fill(*bin, amount_in, swap_for_y, support_limit_order) == Err::<(u64, u64, u64, u64), ErrorCode>(e),
        },
        res matches Ok(fill) ==> fill.amount_in + fill.amount_left == amount_in
            && fill.mm_amount_in <= fill.amount_in
            && (!support_limit_order ==> fill.mm_amount_in == fill.amount_in)
            && fill.out_amount <= max_amount_out_with_limit_orders(*bin, swap_for_y, support_limit_order)
            && (fill.amount_left > 0 ==> fill.out_amount == max_amount_out_with_limit_orders(*bin, swap_for_y, support_limit_order)),
{
    proof {
        lemma_bin_fill_properties(*bin, amount_in, swap_for_y, support_limit_order);
    }
    reveal(bin_fill);
    let mm_amount = if swap_for_y { bin.amount_y } else { bin.amount_x };
    let mm_fill = match calculate_exact_in_fill_amount(bin, amount_in, mm_amount, swap_for_y) {
        Ok(v) => v,
        Err(e) => {
            return Err(e);
        },
    };
    proof {
        lemma_layer_fill_properties(*bin, amount_in, mm_amount, swap_for_y);
    }
    if !support_limit_order {
        return Ok(ExactInFillResult {
            amount_in: mm_fill.amount_in,
            amount_left: mm_fill.amount_left,
            out_amount: mm_fill.out_amount,
            mm_amount_in: mm_fill.amount_in,
        });
    }
    let mut total_amount_in = mm_fill.amount_in;
    let mut total_amount_out = mm_fill.out_amount;
    let amount_left_after_mm = mm_fill.amount_left;
    if amount_left_after_mm > 0 {
        let (open_order_amount, processed_order_remaining) = get_limit_order_amounts_by_direction(bin, swap_for_y);
        let processed_fill = match calculate_exact_in_fill_amount(bin, amount_left_after_mm, processed_order_remaining, swap_for_y) {
            Ok(v) => v,
            Err(e) => {
                return Err(e);
            },
        };
        proof {
            lemma_layer_fill_properties(*bin, amount_left_after_mm, processed_order_remaining, swap_for_y);
        }
        total_amount_in = total_amount_in + processed_fill.amount_in;
        total_amount_out = match total_amount_out.checked_add(processed_fill.out_amount) {
            Some(v) => v,
            None => {
                return Err(ErrorCode::MathOverflow);
            },
        };
        if processed_fill.amount_left > 0 {
            let open_fill = match calculate_exact_in_fill_amount(bin, processed_fill.amount_left, open_order_amount, swap_for_y) {
                Ok(v) => v,
                Err(e) => {
                    return Err(e);
                },
            };
            proof {
                lemma_layer_fill_properties(*bin, processed_fill.amount_left, open_order_amount, swap_for_y);
            }
            total_amount_in = total_amount_in + open_fill.amount_in;
            total_amount_out = match total_amount_out.checked_add(open_fill.out_amount) {
                Some(v) => v,
                None => {
                    return Err(ErrorCode::MathOverflow);
                },
            };
        }
    }
    Ok(ExactInFillResult {
        amount_in: total_amount_in,
        amount_left: amount_in - total_amount_in,
        out_amount: total_amount_out,
        mm_amount_in: mm_fill.amount_in,
    })
}

/// Split of a trading fee into `(user_fee, protocol_fee)`. The
/// market-maker part `ceil(trading_fee * mm_amount_in / total_amount_in)`
/// pays `protocol_share` basis points to the protocol; of the limit-order
/// part, the order placers keep `LIMIT_ORDER_FEE_SHARE` basis points
/// (rounded down) and the protocol takes the rest. Nothing is split when
/// the fee or the input is zero; an error when a part exceeds the fee.
#[verifier::opaque]
pub open spec fn split_fee_result(trading_fee: u64, protocol_share: u16, mm_amount_in: u64, total_amount_in: u64) -> Result<(u64, u64), ErrorCode> {
    if total_amount_in == 0 || trading_fee == 0 {
        Ok((0, 0))
    } else {
        let mm_fee = (trading_fee * mm_amount_in + total_amount_in - 1) / (total_amount_in as int);
        if mm_fee > trading_fee {
            Err(ErrorCode::MathOverflow)
        } else {
            let total_lo_fee = trading_fee - mm_fee;
            let lo_fee = total_lo_fee * LIMIT_ORDER_FEE_SHARE / (BASIS_POINT_MAX as int);
            let lo_protocol_fee = total_lo_fee - lo_fee;
            let mm_protocol_fee = mm_fee * protocol_share / (BASIS_POINT_MAX as int);
            let total_protocol_fee = lo_protocol_fee + mm_protocol_fee;
            if total_protocol_fee > trading_fee {
                Err(ErrorCode::MathOverflow)
            } else {
                Ok(((trading_fee - total_protocol_fee) as u64, total_protocol_fee as u64))
            }
        }
    }
}

/// The fee split keeps nothing back: with input to split, the user and
/// protocol parts add up to the fee. It succeeds whenever the share is at
/// most `BASIS_POINT_MAX` and the market-maker input is part of the input;
/// when all the input went to the market maker, the protocol takes exactly
/// `protocol_share` basis points of the fee, rounded down.
pub proof fn lemma_split_fee_properties(trading_fee: u64, protocol_share: u16, mm_amount_in: u64, total_amount_in: u64)
    ensures
        total_amount_in == 0 || trading_fee == 0 ==> split_fee_result(trading_fee, protocol_share, mm_amount_in, total_amount_in)
            == Ok::<(u64, u64), ErrorCode>((0, 0)),
        split_fee_result(trading_fee, protocol_share, mm_amount_in, total_amount_in) matches Ok((user_fee, protocol_fee))
            ==> protocol_fee <= trading_fee && (total_amount_in > 0 ==> user_fee + protocol_fee == trading_fee),
        protocol_share <= BASIS_POINT_MAX && mm_amount_in <= total_amount_in
            ==> split_fee_result(trading_fee, protocol_share, mm_amount_in, total_amount_in) is Ok,
        protocol_share <= BASIS_POINT_MAX && 0 < mm_amount_in && mm_amount_in == total_amount_in
            ==> split_fee_result(trading_fee, protocol_share, mm_amount_in, total_amount_in)
                == Ok::<(u64, u64), ErrorCode>((
                    (trading_fee - trading_fee * protocol_share / 10000) as u64,
                    (trading_fee * protocol_share / 10000) as u64,
                )),
{
    reveal(split_fee_result);
    if trading_fee == 0 {
        assert(trading_fee * protocol_share == 0);
    }
    if total_amount_in != 0 && trading_fee != 0 {
        let n = trading_fee * mm_amount_in + total_amount_in - 1;
        assert(n >= 0) by (nonlinear_arith)
            requires n == trading_fee * mm_amount_in + total_amount_in - 1, trading_fee >= 0, mm_amount_in >= 0, total_amount_in >= 1;
        lemma_div_pos_is_pos(n, total_amount_in as int);
        let mm_fee = n / (total_amount_in as int);
        lemma_fundamental_div_mod(n, total_amount_in as int);
        if mm_amount_in <= total_amount_in {
            assert(mm_fee <= trading_fee) by (nonlinear_arith)
                requires
                    n == trading_fee * mm_amount_in + total_amount_in - 1,
                    mm_amount_in <= total_amount_in,
                    n == total_amount_in * mm_fee + n % (total_amount_in as int),
                    n % (total_amount_in as int) >= 0,
                    total_amount_in >= 1,
                    trading_fee >= 0,
            ;
        }
        if mm_amount_in == total_amount_in {
            assert(n == trading_fee * total_amount_in + (total_amount_in - 1));
            assert(trading_fee * total_amount_in == total_amount_in * trading_fee) by (nonlinear_arith);
            lemma_fundamental_div_mod_converse(n, total_amount_in as int, trading_fee as int, total_amount_in - 1);
            assert(mm_fee == trading_fee);
            assert((trading_fee - mm_fee) * 5000 / 10000 == 0);
        }
        if mm_fee <= trading_fee {
            let total_lo_fee = trading_fee - mm_fee;
            assert(total_lo_fee * 5000 <= total_lo_fee * 10000) by (nonlinear_arith) requires total_lo_fee >= 0;
            lemma_div_is_ordered(total_lo_fee * 5000, total_lo_fee * 10000, 10000);
            lemma_div_multiples_vanish(total_lo_fee, 10000);
            assert(total_lo_fee * 10000 == 10000 * total_lo_fee) by (nonlinear_arith);
            lemma_div_pos_is_pos(total_lo_fee * 5000, 10000);
            assert(mm_fee * protocol_share >= 0) by (nonlinear_arith) requires mm_fee >= 0, protocol_share >= 0;
            lemma_div_pos_is_pos(mm_fee * protocol_share, 10000);
            if protocol_share <= 10000 {
                assert(mm_fee * protocol_share <= mm_fee * 10000) by (nonlinear_arith)
                    requires mm_fee >= 0, protocol_share <= 10000;
                lemma_div_is_ordered(mm_fee * protocol_share, mm_fee * 10000, 10000);
                lemma_div_multiples_vanish(mm_fee, 10000);
                assert(mm_fee * 10000 == 10000 * mm_fee) by (nonlinear_arith);
            }
        }
    }
}

fn split_fee(trading_fee: u64, protocol_share: u16, mm_amount_in: u64, total_amount_in: u64) -> (res: Result<(u64, u64), ErrorCode>)
    ensures
        res == split_fee_result(trading_fee, protocol_share, mm_amount_in, total_amount_in),
        total_amount_in == 0 || trading_fee == 0 ==> res == Ok::<(u64, u64), ErrorCode>((0, 0)),
        res matches Ok((user_fee, protocol_fee))
            ==> protocol_fee <= trading_fee && (total_amount_in > 0 ==> user_fee + protocol_fee == trading_fee),
        protocol_share <= BASIS_POINT_MAX && mm_amount_in <= total_amount_in ==> res is Ok,
        protocol_share <= BASIS_POINT_MAX && 0 < mm_amount_in && mm_amount_in == total_amount_in
            ==> res == Ok::<(u64, u64), ErrorCode>((
                (trading_fee - trading_fee * protocol_share / 10000) as u64,
                (trading_fee * protocol_share / 10000) as u64,
            )),
{
    proof {
        lemma_split_fee_properties(trading_fee, protocol_share, mm_amount_in, total_amount_in);
    }
    reveal(split_fee_result);
    if total_amount_in == 0 || trading_fee == 0 {
        return Ok((0, 0));
    }
    proof {
        assert(trading_fee as int * mm_amount_in as int <= 0xffff_ffff_ffff_ffff * 0xffff_ffff_ffff_ffff) by (nonlinear_arith)
            requires trading_fee <= 0xffff_ffff_ffff_ffff, mm_amount_in <= 0xffff_ffff_ffff_ffff;
    }
    let mm_fee_wide: u128 = (trading_fee as u128 * mm_amount_in as u128 + (total_amount_in as u128 - 1)) / total_amount_in as u128;
    if mm_fee_wide > trading_fee as u128 {
        return Err(ErrorCode::MathOverflow);
    }
    let mm_fee = mm_fee_wide as u64;
    let total_lo_fee = trading_fee - mm_fee;
    let lo_fee = (total_lo_fee as u128 * LIMIT_ORDER_FEE_SHARE as u128 / BASIS_POINT_MAX as u128) as u64;
    let lo_protocol_fee = total_lo_fee - lo_fee;
    proof {
        assert(mm_fee as int * protocol_share as int <= 0xffff_ffff_ffff_ffff * 0xffff) by (nonlinear_arith)
            requires mm_fee <= 0xffff_ffff_ffff_ffff, protocol_share <= 0xffff;
    }
    let mm_protocol_fee_wide: u128 = mm_fee as u128 * protocol_share as u128 / BASIS_POINT_MAX as u128;
    if mm_protocol_fee_wide > (trading_fee - lo_protocol_fee) as u128 {
        return Err(ErrorCode::MathOverflow);
    }
    let total_protocol_fee = lo_protocol_fee + mm_protocol_fee_wide as u64;
    let total_user_fee = trading_fee - total_protocol_fee;
    Ok((total_user_fee, total_protocol_fee))
}

/// The result of [`swap_exact_in_quote_at_bin`]: the swap step inside one
/// bin with up to `in_amount` of input.
///
/// When the fee is charged on input, the contained fee of `in_amount` is
/// set aside first and the rest fills the bin. If the bin cannot absorb all
/// of it, only the filled amount is charged: the fee becomes the gross-up
/// fee of the filled amount, and the input consumed is the filled amount
/// plus that fee. When the fee is charged on output, the consumed input is
/// what the bin filled, and the contained fee of the output is deducted
/// from it. The protocol's part of the fee follows [`split_fee_result`].
#[verifier::opaque]
pub open spec fn exact_in_at_bin_result(bin: BinView, pool: PoolView, in_amount: u64, swap_for_y: bool, support_limit_order: bool, fee_on_input: bool) -> Result<BinQuoteResult, ErrorCode> {
    let initial_fee: Result<u64, ErrorCode> = if fee_on_input { compute_fee_from_amount_result(pool, in_amount) } else { Ok(0) };
    match initial_fee {
        Err(e) => Err(e),
        Ok(fee0) => {
            let excluded_in = (in_amount - fee0) as u64;
            match bin_fill(bin, excluded_in, swap_for_y, support_limit_order) {
                Err(e) => Err(e),
                Ok((filled_in, left, out, mm_in)) => {
                    let charged: Result<(u64, u64), ErrorCode> = if left > 0 {
                        let filled = (excluded_in - left) as u64;
                        if fee_on_input {
                            match compute_fee_result(pool, filled) {
                                Err(e) => Err(e),
                                Ok(fee) => if filled + fee > u64::MAX {
                                    Err(ErrorCode::MathOverflow)
                                } else {
                                    Ok(((filled + fee) as u64, fee))
                                },
                            }
                        } else {
                            Ok((filled, fee0))
                        }
                    } else {
                        Ok((in_amount, fee0))
                    };
                    match charged {
                        Err(e) => Err(e),
                        Ok((included_in, fee1)) => {
                            let output_fee: Result<(u64, u64), ErrorCode> = if fee_on_input {
                                Ok((out, fee1))
                            } else {
                                match compute_fee_from_amount_result(pool, out) {
                                    Err(e) => Err(e),
                                    Ok(fee) => Ok(((out - fee) as u64, fee)),
                                }
                            };
                            match output_fee {
                                Err(e) => Err(e),
                                Ok((excluded_out, trading_fee)) => match split_fee_result(
                                    trading_fee,
                                    pool.parameters.protocol_share,
                                    mm_in,
                                    filled_in,
                                ) {
                                    Err(e) => Err(e),
                                    Ok((_user_fee, protocol_fee)) => Ok(BinQuoteResult {
                                        amount_in: included_in,
                                        amount_out: excluded_out,
                                        fee: trading_fee,
                                        protocol_fee,
                                    }),
                                },
                            }
                        },
                    }
                },
            }
        },
    }
}

/// Swap step inside one bin with up to `in_amount` of input.
#[verifier::spinoff_prover]
#[verifier::rlimit(40)]
pub fn swap_exact_in_quote_at_bin(
    bin: &BinView,
    pool: &PoolView,
    in_amount: u64,
    swap_for_y: bool,
    support_limit_order: bool,
    fee_on_input: bool,
) -> (res: Result<BinQuoteResult, ErrorCode>)
    requires
        pool.parameters.base_fee_power_factor <= 38,
    ensures
        res == exact_in_at_bin_result(*bin, *pool, in_amount, swap_for_y, support_limit_order, fee_on_input),
{
    reveal(exact_in_at_bin_result);
    let mut trading_fee: u64 = 0;
    let mut excluded_fee_amount_in = in_amount;
    if fee_on_input {
        let fee = match compute_fee_from_amount(pool, in_amount) {
            Ok(v) => v,
            Err(e) => {
                return Err(e);
            },
        };
        trading_fee = fee;
        excluded_fee_amount_in = in_amount - fee;
    }
    let fill_result = match get_exact_in_fill_amount_result(bin, excluded_fee_amount_in, swap_for_y, support_limit_order) {
        Ok(v) => v,
        Err(e) => {
            return Err(e);
        },
    };
    let amount_left = fill_result.amount_left;
    let out_amount = fill_result.out_amount;
    let mut included_fee_amount_in = in_amount;
    if amount_left > 0 {
        excluded_fee_amount_in = excluded_fee_amount_in - amount_left;
        if fee_on_input {
            let fee = match compute_fee(pool, excluded_fee_amount_in) {
                Ok(v) => v,
                Err(e) => {
                    return Err(e);
                },
            };
            trading_fee = fee;
            included_fee_amount_in = match excluded_fee_amount_in.checked_add(fee) {
                Some(v) => v,
                None => {
                    return Err(ErrorCode::MathOverflow);
                },
            };
        } else {
            included_fee_amount_in = excluded_fee_amount_in;
        }
    }
    let mut excluded_fee_amount_out = out_amount;
    if !fee_on_input {
        let fee = match compute_fee_from_amount(pool, out_amount) {
            Ok(v) => v,
            Err(e) => {
                return Err(e);
            },
        };
        trading_fee = fee;
        excluded_fee_amount_out = out_amount - fee;
    }
    let (_user_fee, protocol_fee) = match split_fee(
        trading_fee,
        pool.parameters.protocol_share,
        fill_result.mm_amount_in,
        fill_result.amount_in,
    ) {
        Ok(v) => v,
        Err(e) => {
            return Err(e);
        },
    };
    Ok(BinQuoteResult {
        amount_in: included_fee_amount_in,
        amount_out: excluded_fee_amount_out,
        fee: trading_fee,
        protocol_fee,
    })
}

/// The smaller of two amounts.
pub open spec fn min_amount(a: u64, b: u64) -> u64 {
    if a < b { a } else { b }
}

/// Input (before fees, each layer rounded up) needed to take
/// `included_fee_amount_out` out of a bin: the output is taken from the
/// market-maker reserve first, then from processed limit orders, then from
/// open limit orders matching the swap direction. An error when the summed
/// input exceeds `u64::MAX`.
#[verifier::opaque]
pub open spec fn excluded_fee_amount_in_result(bin: BinView, swap_for_y: bool, included_fee_amount_out: u64) -> Result<u64, ErrorCode> {
    let (open_amount, processed_amount) = limit_order_amounts(bin, swap_for_y);
    let out1 = min_amount(included_fee_amount_out, max_amount_out(bin, swap_for_y));
    match amount_in_result(out1, bin.price, swap_for_y, Rounding::Up) {
        Err(e) => Err(e),
        Ok(in1) => {
            let rem1 = (included_fee_amount_out - out1) as u64;
            if rem1 == 0 {
                Ok(in1)
            } else {
                let out2 = min_amount(rem1, processed_amount);
                match amount_in_result(out2, bin.price, swap_for_y, Rounding::Up) {
                    Err(e) => Err(e),
                    Ok(in2) => if in1 + in2 > u64::MAX {
                        Err(ErrorCode::MathOverflow)
                    } else {
                        let rem2 = (rem1 - out2) as u64;
                        if rem2 == 0 {
                            Ok((in1 + in2) as u64)
                        } else {
                            let out3 = min_amount(rem2, open_amount);
                            match amount_in_result(out3, bin.price, swap_for_y, Rounding::Up) {
                                Err(e) => Err(e),
                                Ok(in3) => if in1 + in2 + in3 > u64::MAX {
                                    Err(ErrorCode::MathOverflow)
                                } else {
                                    Ok((in1 + in2 + in3) as u64)
                                },
                            }
                        }
                    },
                }
            }
        },
    }
}

fn get_excluded_fee_amount_in(bin: &BinView, swap_for_y: bool, included_fee_amount_out: u64) -> (res: Result<u64, ErrorCode>)
    ensures
        res == excluded_fee_amount_in_result(*bin, swap_for_y, included_fee_amount_out),
{
    reveal(excluded_fee_amount_in_result);
    let mm_amount = if swap_for_y { bin.amount_y } else { bin.amount_x };
    let (open_order_amount, processed_order_remaining_amount) = get_limit_order_amounts_by_direction(bin, swap_for_y);
    let mut remaining_amount_out = included_fee_amount_out;
    let exact_out_amount = if remaining_amount_out < mm_amount { remaining_amount_out } else { mm_amount };
    let mut total_amount_in = match get_amount_in(exact_out_amount, bin.price, swap_for_y, Rounding::Up) {
        Ok(v) => v,
        Err(e) => {
            return Err(e);
        },
    };
    remaining_amount_out = remaining_amount_out - exact_out_amount;
    if remaining_amount_out > 0 {
        let exact_out_amount = if remaining_amount_out < processed_order_remaining_amount {
            remaining_amount_out
        } else {
            processed_order_remaining_amount
        };
        let amount_in = match get_amount_in(exact_out_amount, bin.price, swap_for_y, Rounding::Up) {
            Ok(v) => v,
            Err(e) => {
                return Err(e);
            },
        };
        remaining_amount_out = remaining_amount_out - exact_out_amount;
        total_amount_in = match total_amount_in.checked_add(amount_in) {
            Some(v) => v,
            None => {
                return Err(ErrorCode::MathOverflow);
            },
        };
        if remaining_amount_out > 0 {
            let exact_out_amount = if remaining_amount_out < open_order_amount {
                remaining_amount_out
            } else {
                open_order_amount
            };
            let amount_in = match get_amount_in(exact_out_amount, bin.price, swap_for_y, Rounding::Up) {
                Ok(v) => v,
                Err(e) => {
                    return Err(e);
                },
            };
            total_amount_in = match total_amount_in.checked_add(amount_in) {
                Some(v) => v,
                None => {
                    return Err(ErrorCode::MathOverflow);
                },
            };
        }
    }
    Ok(total_amount_in)
}

/// The result of [`swap_exact_out_quote_at_bin`]: the swap step inside one
/// bin producing `out_amount`.
///
/// With the fee charged on output, the gross-up fee of `out_amount` is
/// added to the output to take from the bin. When that reaches the bin's
/// whole output liquidity, the step is the exact-in step with an unlimited
/// input (it drains the bin). Otherwise the input needed for that output is
/// computed layer by layer, the gross-up fee is added when charged on
/// input, and the exact-in step is run with that input; its output is
/// reported as exactly `out_amount`, and any excess above
/// `out_amount + 1` goes to the protocol fee.
#[verifier::opaque]
pub open spec fn exact_out_at_bin_result(bin: BinView, pool: PoolView, out_amount: u64, swap_for_y: bool, support_limit_order: bool, fee_on_input: bool) -> Result<BinQuoteResult, ErrorCode> {
    let included_out: Result<u64, ErrorCode> = if fee_on_input {
        Ok(out_amount)
    } else {
        match compute_fee_result(pool, out_amount) {
            Err(e) => Err(e),
            Ok(fee) => if out_amount + fee > u64::MAX { Err(ErrorCode::MathOverflow) } else { Ok((out_amount + fee) as u64) },
        }
    };
    match included_out {
        Err(e) => Err(e),
        Ok(included_fee_amount_out) => if included_fee_amount_out >= max_amount_out_with_limit_orders(bin, swap_for_y, support_limit_order) {
            exact_in_at_bin_result(bin, pool, u64::MAX, swap_for_y, support_limit_order, fee_on_input)
        } else {
            match excluded_fee_amount_in_result(bin, swap_for_y, included_fee_amount_out) {
                Err(e) => Err(e),
                Ok(excluded_in) => {
                    let included_in: Result<u64, ErrorCode> = if fee_on_input {
                        match compute_fee_result(pool, excluded_in) {
                            Err(e) => Err(e),
                            Ok(fee) => if excluded_in + fee > u64::MAX { Err(ErrorCode::MathOverflow) } else { Ok((excluded_in + fee) as u64) },
                        }
                    } else {
                        Ok(excluded_in)
                    };
                    match included_in {
                        Err(e) => Err(e),
                        Ok(amount_in) => match exact_in_at_bin_result(bin, pool, amount_in, swap_for_y, support_limit_order, fee_on_input) {
                            Err(e) => Err(e),
                            Ok(quote) => {
                                let delta = quote.amount_out - out_amount;
                                if delta > 1 && quote.protocol_fee + delta > u64::MAX {
                                    Err(ErrorCode::MathOverflow)
                                } else {
                                    Ok(BinQuoteResult {
                                        amount_out: out_amount,
                                        protocol_fee: if delta > 1 { (quote.protocol_fee + delta) as u64 } else { quote.protocol_fee },
                                        ..quote
                                    })
                                }
                            },
                        },
                    }
                },
            }
        },
    }
}

/// Swap step inside one bin producing exactly `out_amount` of output.
pub fn swap_exact_out_quote_at_bin(
    bin: &BinView,
    pool: &PoolView,
    out_amount: u64,
    swap_for_y: bool,
    support_limit_order: bool,
    fee_on_input: bool,
) -> (res: Result<BinQuoteResult, ErrorCode>)
    requires
        pool.parameters.base_fee_power_factor <= 38,
    ensures
        res == exact_out_at_bin_result(*bin, *pool, out_amount, swap_for_y, support_limit_order, fee_on_input),
{
    reveal(exact_out_at_bin_result);
    let mut included_fee_amount_out = out_amount;
    if !fee_on_input {
        let fee = match compute_fee(pool, out_amount) {
            Ok(v) => v,
            Err(e) => {
                return Err(e);
            },
        };
        included_fee_amount_out = match out_amount.checked_add(fee) {
            Some(v) => v,
            None => {
                return Err(ErrorCode::MathOverflow);
            },
        };
    }
    let max_amount_out = get_max_amount_out_with_limit_orders(bin, swap_for_y, support_limit_order);
    if included_fee_amount_out >= max_amount_out {
        return swap_exact_in_quote_at_bin(bin, pool, u64::MAX, swap_for_y, support_limit_order, fee_on_input);
    }
    let excluded_fee_amount_in = match get_excluded_fee_amount_in(bin, swap_for_y, included_fee_amount_out) {
        Ok(v) => v,
        Err(e) => {
            return Err(e);
        },
    };
    let included_fee_amount_in = if fee_on_input {
        let fee = match compute_fee(pool, excluded_fee_amount_in) {
            Ok(v) => v,
            Err(e) => {
                return Err(e);
            },
        };
        match excluded_fee_amount_in.checked_add(fee) {
            Some(v) => v,
            None => {
                return Err(ErrorCode::MathOverflow);
            },
        }
    } else {
        excluded_fee_amount_in
    };
    let mut result = match swap_exact_in_quote_at_bin(
        bin,
        pool,
        included_fee_amount_in,
        swap_for_y,
        support_limit_order,
        fee_on_input,
    ) {
        Ok(v) => v,
        Err(e) => {
            return Err(e);
        },
    };
    if result.amount_out > out_amount {
        let delta = result.amount_out - out_amount;
        if delta > 1 {
            result.protocol_fee = match result.protocol_fee.checked_add(delta) {
                Some(v) => v,
                None => {
                    return Err(ErrorCode::MathOverflow);
                },
            };
        }
    }
    result.amount_out = out_amount;
    Ok(result)
}

/// Bins sorted by strictly ascending id.
pub open spec fn bins_sorted(bins: Seq<BinView>) -> bool {
    forall|i: int, j: int| 0 <= i < j < bins.len() ==> bins[i].bin_id < bins[j].bin_id
}

/// The supplied bin with id `bin_id`, if any.
pub open spec fn bin_with_id(bins: Seq<BinView>, bin_id: i32) -> Option<BinView> {
    if exists|i: int| 0 <= i < bins.len() && bins[i].bin_id == bin_id {
        Some(bins[choose|i: int| 0 <= i < bins.len() && bins[i].bin_id == bin_id])
    } else {
        None
    }
}

/// Binary search for the bin with id `bin_id`; an absent id is an empty bin.
fn find_bin(bins: &[BinView], bin_id: i32) -> (res: Option<BinView>)
    requires
        bins_sorted(bins@),
    ensures
        res == bin_with_id(bins@, bin_id),
{
    let mut lo: usize = 0;
    let mut hi: usize = bins.len();
    while lo < hi
        invariant
            0 <= lo <= hi <= bins@.len(),
            bins_sorted(bins@),
            forall|i: int| 0 <= i < lo ==> bins@[i].bin_id < bin_id,
            forall|i: int| hi <= i < bins@.len() ==> bins@[i].bin_id > bin_id,
        decreases hi - lo,
    {
        let mid = lo + (hi - lo) / 2;
        let id = bins[mid].bin_id;
        if id == bin_id {
            proof {
                assert(bins@[mid as int].bin_id == bin_id);
                let i = choose|i: int| 0 <= i < bins@.len() && bins@[i].bin_id == bin_id;
                assert(i == mid as int);
            }
            return Some(bins[mid]);
        } else if id < bin_id {
            lo = mid + 1;
        } else {
            hi = mid;
        }
    }
    None
}

/// Whether a bin with id `bin_id` lies at or beyond `active_id` in the swap
/// direction (at or below it when selling X for Y, at or above otherwise).
pub open spec fn in_reach(bin_id: i32, active_id: int, swap_for_y: bool) -> bool {
    if swap_for_y { bin_id <= active_id } else { bin_id >= active_id }
}

/// Output liquidity (market-maker reserves plus matching limit orders when
/// supported) of the supplied bins at or beyond `active_id` in the swap
/// direction.
pub open spec fn liquidity_in_reach(bins: Seq<BinView>, active_id: int, swap_for_y: bool, support_limit_order: bool) -> int
    decreases bins.len(),
{
    if bins.len() == 0 {
        0
    } else {
        liquidity_in_reach(bins.drop_last(), active_id, swap_for_y, support_limit_order) + if in_reach(
            bins.last().bin_id,
            active_id,
            swap_for_y,
        ) {
            max_amount_out_with_limit_orders(bins.last(), swap_for_y, support_limit_order) as int
        } else {
            0
        }
    }
}

/// Output liquidity of all supplied bins.
pub open spec fn total_liquidity(bins: Seq<BinView>, swap_for_y: bool, support_limit_order: bool) -> int
    decreases bins.len(),
{
    if bins.len() == 0 {
        0
    } else {
        total_liquidity(bins.drop_last(), swap_for_y, support_limit_order)
            + max_amount_out_with_limit_orders(bins.last(), swap_for_y, support_limit_order) as int
    }
}

/// The bin id one step beyond `active_id` in the swap direction.
pub open spec fn next_id(active_id: int, swap_for_y: bool) -> int {
    if swap_for_y { active_id - 1 } else { active_id + 1 }
}

/// The liquidity in reach never goes negative, shrinks when the active bin
/// moves one step on, stays within the total, and counts a supplied bin at
/// the active id in full.
pub proof fn lemma_liquidity_in_reach_bounds(bins: Seq<BinView>, active_id: int, swap_for_y: bool, support_limit_order: bool)
    ensures
        0 <= liquidity_in_reach(bins, next_id(active_id, swap_for_y), swap_for_y, support_limit_order)
            <= liquidity_in_reach(bins, active_id, swap_for_y, support_limit_order)
            <= total_liquidity(bins, swap_for_y, support_limit_order),
        forall|k: int|
            0 <= k < bins.len() && bins[k].bin_id == active_id ==> liquidity_in_reach(bins, active_id, swap_for_y, support_limit_order)
                >= max_amount_out_with_limit_orders(#[trigger] bins[k], swap_for_y, support_limit_order)
                + liquidity_in_reach(bins, next_id(active_id, swap_for_y), swap_for_y, support_limit_order),
    decreases bins.len(),
{
    if bins.len() > 0 {
        let rest = bins.drop_last();
        lemma_liquidity_in_reach_bounds(rest, active_id, swap_for_y, support_limit_order);
        assert forall|k: int|
            0 <= k < bins.len() && bins[k].bin_id == active_id implies liquidity_in_reach(bins, active_id, swap_for_y, support_limit_order)
                >= max_amount_out_with_limit_orders(#[trigger] bins[k], swap_for_y, support_limit_order)
                + liquidity_in_reach(bins, next_id(active_id, swap_for_y), swap_for_y, support_limit_order) by {
            if k < bins.len() - 1 {
                assert(rest[k] == bins[k]);
            }
        }
    }
}

/// A supplied bin at the active id with output liquidity puts output
/// liquidity in reach.
proof fn lemma_bin_in_reach(bins: Seq<BinView>, active_id: i32, bin: BinView, swap_for_y: bool, support_limit_order: bool)
    requires
        bin_with_id(bins, active_id) == Some(bin),
        max_amount_out_with_limit_orders(bin, swap_for_y, support_limit_order) > 0,
    ensures
        liquidity_in_reach(bins, active_id as int, swap_for_y, support_limit_order) > 0,
{
    lemma_liquidity_in_reach_bounds(bins, active_id as int, swap_for_y, support_limit_order);
    let k = choose|i: int| 0 <= i < bins.len() && bins[i].bin_id == active_id;
    assert(bins[k] == bin);
}

/// No supplied bin remains at or beyond `active_id` in the swap direction
/// (at or below it when selling X for Y, at or above it otherwise).
pub open spec fn past_supplied_bins(bins: Seq<BinView>, active_id: i32, swap_for_y: bool) -> bool {
    if swap_for_y {
        bins.len() == 0 || active_id < bins[0].bin_id
    } else {
        bins.len() == 0 || active_id > bins.last().bin_id
    }
}

/// Whether no supplied bin remains at or beyond `active_id` in the swap
/// direction, so that the walk has run out of the caller's bins.
fn out_of_supplied_bins(bins: &[BinView], active_id: i32, swap_for_y: bool) -> (res: bool)
    ensures
        res == past_supplied_bins(bins@, active_id, swap_for_y),
        bins_sorted(bins@) ==> (res <==> !exists|i: int|
            0 <= i < bins@.len() && (if swap_for_y { bins@[i].bin_id <= active_id } else { bins@[i].bin_id >= active_id })),
{
    proof {
        if bins_sorted(bins@) && bins@.len() > 0 {
            let last = bins@.len() - 1;
            assert forall|i: int| 0 <= i < bins@.len() implies bins@[0].bin_id <= #[trigger] bins@[i].bin_id
                && bins@[i].bin_id <= bins@[last].bin_id by {
                if 0 < i {
                    assert(bins@[0].bin_id < bins@[i].bin_id);
                }
                if i < last {
                    assert(bins@[i].bin_id < bins@[last].bin_id);
                }
            }
            assert(swap_for_y ==> bins@[0].bin_id <= bins@[0].bin_id);
            assert(!swap_for_y ==> bins@[last].bin_id >= bins@[last].bin_id);
        }
    }
    if bins.len() == 0 {
        return true;
    }
    if swap_for_y {
        active_id < bins[0].bin_id
    } else {
        active_id > bins[bins.len() - 1].bin_id
    }
}

/// Number of bin ids from `active_id` through the last supplied bin in the
/// swap direction.
pub open spec fn bins_ahead(bins: Seq<BinView>, active_id: i32, swap_for_y: bool) -> int {
    if bins.len() == 0 {
        0
    } else if swap_for_y {
        active_id - bins[0].bin_id + 1
    } else {
        bins.last().bin_id - active_id + 1
    }
}

/// Running totals of a swap: `(amount_out or amount_in, fee, protocol_fee)`.
pub type SwapTotals = (u64, u64, u64);

/// Adds a bin's quote to the running totals of an exact-in swap; an error
/// when a total exceeds `u64::MAX`.
pub open spec fn add_exact_in_quote(totals: SwapTotals, quote: BinQuoteResult) -> Result<SwapTotals, ErrorCode> {
    if totals.0 + quote.amount_out > u64::MAX || totals.1 + quote.fee > u64::MAX || totals.2 + quote.protocol_fee > u64::MAX {
        Err(ErrorCode::MathOverflow)
    } else {
        Ok(((totals.0 + quote.amount_out) as u64, (totals.1 + quote.fee) as u64, (totals.2 + quote.protocol_fee) as u64))
    }
}

/// Swap at the active bin during an exact-in swap with `amount_left` of
/// input still to place. Empty or absent bins leave everything unchanged;
/// otherwise the volatility accumulator is updated and the bin's exact-in
/// step consumes part of the input.
#[verifier::opaque]
pub open spec fn exact_in_bin_step(
    bins: Seq<BinView>,
    pool: PoolView,
    amount_left: u64,
    totals: SwapTotals,
    swap_for_y: bool,
    support_limit_order: bool,
    fee_on_input: bool,
) -> Result<(PoolView, u64, SwapTotals), ErrorCode> {
    match bin_with_id(bins, pool.active_id) {
        None => Ok((pool, amount_left, totals)),
        Some(bin) => if max_amount_out_with_limit_orders(bin, swap_for_y, support_limit_order) == 0 {
            Ok((pool, amount_left, totals))
        } else {
            let updated = with_volatility_accumulator(pool, next_volatility_accumulator(pool));
            match exact_in_at_bin_result(bin, updated, amount_left, swap_for_y, support_limit_order, fee_on_input) {
                Err(e) => Err(e),
                Ok(quote) => if quote.amount_in == 0 {
                    Ok((updated, amount_left, totals))
                } else if quote.amount_in > amount_left {
                    Err(ErrorCode::MathOverflow)
                } else {
                    match add_exact_in_quote(totals, quote) {
                        Err(e) => Err(e),
                        Ok(next_totals) => Ok((updated, (amount_left - quote.amount_in) as u64, next_totals)),
                    }
                },
            }
        },
    }
}

/// The walk of an exact-in swap from the active bin: swap at the active
/// bin, and while input remains, fail past the supplied bins or advance the
/// active bin and continue. Returns the final pool and totals.
pub open spec fn exact_in_walk(
    bins: Seq<BinView>,
    pool: PoolView,
    amount_left: u64,
    totals: SwapTotals,
    swap_for_y: bool,
    support_limit_order: bool,
    fee_on_input: bool,
) -> Result<(PoolView, SwapTotals), ErrorCode>
    decreases bins_ahead(bins, pool.active_id, swap_for_y),
{
    if amount_left == 0 {
        Ok((pool, totals))
    } else {
        match exact_in_bin_step(bins, pool, amount_left, totals, swap_for_y, support_limit_order, fee_on_input) {
            Err(e) => Err(e),
            Ok((stepped, left, next_totals)) => if left == 0 {
                Ok((stepped, next_totals))
            } else if past_supplied_bins(bins, stepped.active_id, swap_for_y) {
                Err(ErrorCode::PoolOutOfLiquidity)
            } else {
                match advance_active_bin_result(stepped, swap_for_y) {
                    (_, Err(e)) => Err(e),
                    (advanced, Ok(_)) => {
                        proof {
                            reveal(exact_in_bin_step);
                        }
                        exact_in_walk(
                        bins,
                        advanced,
                        left,
                        next_totals,
                        swap_for_y,
                        support_limit_order,
                        fee_on_input,
                    )
                    },
                }
            },
        }
    }
}

/// `pool` with `last_update_timestamp` set to `timestamp`.
pub open spec fn with_timestamp(pool: PoolView, timestamp: i64) -> PoolView {
    PoolView {
        v_parameters: VariableParameters { last_update_timestamp: timestamp, ..pool.v_parameters },
        ..pool
    }
}

/// The result of [`compute_swap_full`]: the volatility references are
/// updated once at `current_timestamp`, then the exact-in walk places all
/// of `amount_in` across the bins.
pub open spec fn exact_in_swap_result(
    pool: PoolView,
    bins: Seq<BinView>,
    amount_in: u64,
    swap_for_y: bool,
    current_timestamp: i64,
) -> Result<SwapExactInQuote, ErrorCode> {
    match update_references_result(pool, current_timestamp) {
        (_, Err(e)) => Err(e),
        (referenced, Ok(_)) => match exact_in_walk(
            bins,
            referenced,
            amount_in,
            (0, 0, 0),
            swap_for_y,
            supports_limit_order(referenced),
            fee_charged_on_input(referenced, swap_for_y),
        ) {
            Err(e) => Err(e),
            Ok((after, totals)) => Ok(SwapExactInQuote {
                amount_out: totals.0,
                fee: totals.1,
                protocol_fee: totals.2,
                pool_after: with_timestamp(after, current_timestamp),
            }),
        },
    }
}

/// Exact-in swap of `amount_in` across the supplied bins (sorted by
/// ascending id, covering every bin the swap may touch).
pub fn compute_swap_full(
    pool: &PoolView,
    bins: &[BinView],
    amount_in: u64,
    swap_for_y: bool,
    current_timestamp: i64,
) -> (res: Result<SwapExactInQuote, ErrorCode>)
    requires
        bins_sorted(bins@),
        pool.parameters.base_fee_power_factor <= 38 || amount_in == 0
            || liquidity_in_reach(bins@, pool.active_id as int, swap_for_y, supports_limit_order(*pool)) == 0,
    ensures
        res == exact_in_swap_result(*pool, bins@, amount_in, swap_for_y, current_timestamp),
{
    let mut state = *pool;
    match update_references(&mut state, current_timestamp) {
        Ok(()) => {},
        Err(e) => {
            return Err(e);
        },
    }
    let support_limit_order = is_support_limit_order(&state);
    let fee_on_input = fee_on_input(&state, swap_for_y);
    let mut total_amount_out: u64 = 0;
    let mut total_fee: u64 = 0;
    let mut total_protocol_fee: u64 = 0;
    let mut amount_left = amount_in;
    let ghost start = state;
    while amount_left > 0
        invariant
            bins_sorted(bins@),
            state.parameters == start.parameters,
            start.parameters.base_fee_power_factor <= 38 || amount_left == 0
                || liquidity_in_reach(bins@, state.active_id as int, swap_for_y, support_limit_order) == 0,
            support_limit_order == supports_limit_order(start),
            fee_on_input == fee_charged_on_input(start, swap_for_y),
            exact_in_walk(bins@, state, amount_left, (total_amount_out, total_fee, total_protocol_fee), swap_for_y, support_limit_order, fee_on_input)
                == exact_in_walk(bins@, start, amount_in, (0, 0, 0), swap_for_y, support_limit_order, fee_on_input),
            update_references_result(*pool, current_timestamp) == (start, Ok::<(), ErrorCode>(())),
        decreases
            (if bins_ahead(bins@, state.active_id, swap_for_y) < 0 { 0 } else { bins_ahead(bins@, state.active_id, swap_for_y) }),
            amount_left,
    {
        proof {
            reveal(exact_in_bin_step);
        }
        let ghost before = state;
        let ghost left_before = amount_left;
        let ghost totals_before = (total_amount_out, total_fee, total_protocol_fee);
        if let Some(active_bin) = find_bin(bins, state.active_id) {
            let max_out = get_max_amount_out_with_limit_orders(&active_bin, swap_for_y, support_limit_order);
            if max_out > 0 {
                proof {
                    lemma_bin_in_reach(bins@, state.active_id, active_bin, swap_for_y, support_limit_order);
                }
                let _ = update_volatility_accumulator(&mut state);
                let result = match swap_exact_in_quote_at_bin(
                    &active_bin,
                    &state,
                    amount_left,
                    swap_for_y,
                    support_limit_order,
                    fee_on_input,
                ) {
                    Ok(v) => v,
                    Err(e) => {
                        return Err(e);
                    },
                };
                if result.amount_in > 0 {
                    amount_left = match amount_left.checked_sub(result.amount_in) {
                        Some(v) => v,
                        None => {
                            return Err(ErrorCode::MathOverflow);
                        },
                    };
                    total_amount_out = match total_amount_out.checked_add(result.amount_out) {
                        Some(v) => v,
                        None => {
                            return Err(ErrorCode::MathOverflow);
                        },
                    };
                    total_fee = match total_fee.checked_add(result.fee) {
                        Some(v) => v,
                        None => {
                            return Err(ErrorCode::MathOverflow);
                        },
                    };
                    total_protocol_fee = match total_protocol_fee.checked_add(result.protocol_fee) {
                        Some(v) => v,
                        None => {
                            return Err(ErrorCode::MathOverflow);
                        },
                    };
                }
            }
        }
        proof {
            assert(exact_in_bin_step(bins@, before, left_before, totals_before, swap_for_y, support_limit_order, fee_on_input)
                == Ok::<(PoolView, u64, SwapTotals), ErrorCode>((state, amount_left, (total_amount_out, total_fee, total_protocol_fee))));
        }
        if amount_left > 0 {
            if out_of_supplied_bins(bins, state.active_id, swap_for_y) {
                return Err(ErrorCode::PoolOutOfLiquidity);
            }
            proof {
                lemma_liquidity_in_reach_bounds(bins@, state.active_id as int, swap_for_y, support_limit_order);
            }
            match advance_active_bin(&mut state, swap_for_y) {
                Ok(()) => {},
                Err(e) => {
                    return Err(e);
                },
            }
        }
    }
    state.v_parameters.last_update_timestamp = current_timestamp;
    Ok(SwapExactInQuote {
        amount_out: total_amount_out,
        fee: total_fee,
        protocol_fee: total_protocol_fee,
        pool_after: state,
    })
}


/// Adds a bin's quote to the running totals of an exact-out swap; an error
/// when a total exceeds `u64::MAX`.
pub open spec fn add_exact_out_quote(totals: SwapTotals, quote: BinQuoteResult) -> Result<SwapTotals, ErrorCode> {
    if totals.0 + quote.amount_in > u64::MAX || totals.1 + quote.fee > u64::MAX || totals.2 + quote.protocol_fee > u64::MAX {
        Err(ErrorCode::MathOverflow)
    } else {
        Ok(((totals.0 + quote.amount_in) as u64, (totals.1 + quote.fee) as u64, (totals.2 + quote.protocol_fee) as u64))
    }
}

/// Swap at the active bin during an exact-out swap with `amount_out_left`
/// of output still to deliver. Absent bins leave everything unchanged; a
/// bin with no stored price gets the price of its id; empty bins leave
/// everything unchanged; otherwise the volatility accumulator is updated and
/// the bin's exact-out step delivers part of the output.
#[verifier::opaque]
pub open spec fn exact_out_bin_step(
    bins: Seq<BinView>,
    pool: PoolView,
    amount_out_left: u64,
    totals: SwapTotals,
    swap_for_y: bool,
    support_limit_order: bool,
    fee_on_input: bool,
) -> Result<(PoolView, u64, SwapTotals), ErrorCode> {
    match bin_with_id(bins, pool.active_id) {
        None => Ok((pool, amount_out_left, totals)),
        Some(stored) => match stored_price_result(stored, pool.bin_step) {
            (_, Err(e)) => Err(e),
            (bin, Ok(_)) => if max_amount_out_with_limit_orders(bin, swap_for_y, support_limit_order) == 0 {
                Ok((pool, amount_out_left, totals))
            } else {
                let updated = with_volatility_accumulator(pool, next_volatility_accumulator(pool));
                match exact_out_at_bin_result(bin, updated, amount_out_left, swap_for_y, support_limit_order, fee_on_input) {
                    Err(e) => Err(e),
                    Ok(quote) => if quote.amount_out == 0 {
                        Ok((updated, amount_out_left, totals))
                    } else if quote.amount_out > amount_out_left {
                        Err(ErrorCode::MathOverflow)
                    } else {
                        match add_exact_out_quote(totals, quote) {
                            Err(e) => Err(e),
                            Ok(next_totals) => Ok((updated, (amount_out_left - quote.amount_out) as u64, next_totals)),
                        }
                    },
                }
            },
        },
    }
}

/// The walk of an exact-out swap from the active bin, as [`exact_in_walk`]
/// with output to deliver in place of input to place.
pub open spec fn exact_out_walk(
    bins: Seq<BinView>,
    pool: PoolView,
    amount_out_left: u64,
    totals: SwapTotals,
    swap_for_y: bool,
    support_limit_order: bool,
    fee_on_input: bool,
) -> Result<(PoolView, SwapTotals), ErrorCode>
    decreases bins_ahead(bins, pool.active_id, swap_for_y),
{
    if amount_out_left == 0 {
        Ok((pool, totals))
    } else {
        match exact_out_bin_step(bins, pool, amount_out_left, totals, swap_for_y, support_limit_order, fee_on_input) {
            Err(e) => Err(e),
            Ok((stepped, left, next_totals)) => if left == 0 {
                Ok((stepped, next_totals))
            } else if past_supplied_bins(bins, stepped.active_id, swap_for_y) {
                Err(ErrorCode::PoolOutOfLiquidity)
            } else {
                match advance_active_bin_result(stepped, swap_for_y) {
                    (_, Err(e)) => Err(e),
                    (advanced, Ok(_)) => {
                        proof {
                            reveal(exact_out_bin_step);
                        }
                        exact_out_walk(
                        bins,
                        advanced,
                        left,
                        next_totals,
                        swap_for_y,
                        support_limit_order,
                        fee_on_input,
                    )
                    },
                }
            },
        }
    }
}

/// The result of [`compute_swap_full_exact_out`]: the volatility references
/// are updated once at `current_timestamp`, then the exact-out walk
/// delivers all of `amount_out` across the bins.
pub open spec fn exact_out_swap_result(
    pool: PoolView,
    bins: Seq<BinView>,
    amount_out: u64,
    swap_for_y: bool,
    current_timestamp: i64,
) -> Result<SwapExactOutQuote, ErrorCode> {
    match update_references_result(pool, current_timestamp) {
        (_, Err(e)) => Err(e),
        (referenced, Ok(_)) => match exact_out_walk(
            bins,
            referenced,
            amount_out,
            (0, 0, 0),
            swap_for_y,
            supports_limit_order(referenced),
            fee_charged_on_input(referenced, swap_for_y),
        ) {
            Err(e) => Err(e),
            Ok((after, totals)) => Ok(SwapExactOutQuote {
                amount_in: totals.0,
                fee: totals.1,
                protocol_fee: totals.2,
                pool_after: with_timestamp(after, current_timestamp),
            }),
        },
    }
}

/// Exact-out swap delivering `amount_out` across the supplied bins (sorted
/// by ascending id); the returned `amount_in` includes fees.
pub fn compute_swap_full_exact_out(
    pool: &PoolView,
    bins: &[BinView],
    amount_out: u64,
    swap_for_y: bool,
    current_timestamp: i64,
) -> (res: Result<SwapExactOutQuote, ErrorCode>)
    requires
        bins_sorted(bins@),
        pool.parameters.base_fee_power_factor <= 38 || amount_out == 0
            || liquidity_in_reach(bins@, pool.active_id as int, swap_for_y, supports_limit_order(*pool)) == 0,
    ensures
        res == exact_out_swap_result(*pool, bins@, amount_out, swap_for_y, current_timestamp),
{
    let mut state = *pool;
    match update_references(&mut state, current_timestamp) {
        Ok(()) => {},
        Err(e) => {
            return Err(e);
        },
    }
    let support_limit_order = is_support_limit_order(&state);
    let fee_on_input = fee_on_input(&state, swap_for_y);
    let mut total_amount_in: u64 = 0;
    let mut total_fee: u64 = 0;
    let mut total_protocol_fee: u64 = 0;
    let mut amount_out_left = amount_out;
    let ghost start = state;
    while amount_out_left > 0
        invariant
            bins_sorted(bins@),
            state.parameters == start.parameters,
            state.bin_step == start.bin_step,
            start.parameters.base_fee_power_factor <= 38 || amount_out_left == 0
                || liquidity_in_reach(bins@, state.active_id as int, swap_for_y, support_limit_order) == 0,
            support_limit_order == supports_limit_order(start),
            fee_on_input == fee_charged_on_input(start, swap_for_y),
            exact_out_walk(bins@, state, amount_out_left, (total_amount_in, total_fee, total_protocol_fee), swap_for_y, support_limit_order, fee_on_input)
                == exact_out_walk(bins@, start, amount_out, (0, 0, 0), swap_for_y, support_limit_order, fee_on_input),
            update_references_result(*pool, current_timestamp) == (start, Ok::<(), ErrorCode>(())),
        decreases
            (if bins_ahead(bins@, state.active_id, swap_for_y) < 0 { 0 } else { bins_ahead(bins@, state.active_id, swap_for_y) }),
            amount_out_left,
    {
        proof {
            reveal(exact_out_bin_step);
        }
        let ghost before = state;
        let ghost left_before = amount_out_left;
        let ghost totals_before = (total_amount_in, total_fee, total_protocol_fee);
        if let Some(found) = find_bin(bins, state.active_id) {
            let mut active_bin = found;
            match get_or_store_bin_price(&mut active_bin, state.bin_step) {
                Ok(_) => {},
                Err(e) => {
                    return Err(e);
                },
            }
            let max_out = get_max_amount_out_with_limit_orders(&active_bin, swap_for_y, support_limit_order);
            if max_out > 0 {
                proof {
                    assert(max_amount_out_with_limit_orders(found, swap_for_y, support_limit_order) == max_out);
                    lemma_bin_in_reach(bins@, state.active_id, found, swap_for_y, support_limit_order);
                }
                let _ = update_volatility_accumulator(&mut state);
                let result = match swap_exact_out_quote_at_bin(
                    &active_bin,
                    &state,
                    amount_out_left,
                    swap_for_y,
                    support_limit_order,
                    fee_on_input,
                ) {
                    Ok(v) => v,
                    Err(e) => {
                        return Err(e);
                    },
                };
                if result.amount_out > 0 {
                    amount_out_left = match amount_out_left.checked_sub(result.amount_out) {
                        Some(v) => v,
                        None => {
                            return Err(ErrorCode::MathOverflow);
                        },
                    };
                    total_amount_in = match total_amount_in.checked_add(result.amount_in) {
                        Some(v) => v,
                        None => {
                            return Err(ErrorCode::MathOverflow);
                        },
                    };
                    total_fee = match total_fee.checked_add(result.fee) {
                        Some(v) => v,
                        None => {
                            return Err(ErrorCode::MathOverflow);
                        },
                    };
                    total_protocol_fee = match total_protocol_fee.checked_add(result.protocol_fee) {
                        Some(v) => v,
                        None => {
                            return Err(ErrorCode::MathOverflow);
                        },
                    };
                }
            }
        }
        proof {
            assert(exact_out_bin_step(bins@, before, left_before, totals_before, swap_for_y, support_limit_order, fee_on_input)
                == Ok::<(PoolView, u64, SwapTotals), ErrorCode>((state, amount_out_left, (total_amount_in, total_fee, total_protocol_fee))));
        }
        if amount_out_left > 0 {
            if out_of_supplied_bins(bins, state.active_id, swap_for_y) {
                return Err(ErrorCode::PoolOutOfLiquidity);
            }
            proof {
                lemma_liquidity_in_reach_bounds(bins@, state.active_id as int, swap_for_y, support_limit_order);
            }
            match advance_active_bin(&mut state, swap_for_y) {
                Ok(()) => {},
                Err(e) => {
                    return Err(e);
                },
            }
        }
    }
    state.v_parameters.last_update_timestamp = current_timestamp;
    Ok(SwapExactOutQuote {
        amount_in: total_amount_in,
        fee: total_fee,
        protocol_fee: total_protocol_fee,
        pool_after: state,
    })
}

} // verus!
