//! Properties of the swap steps and the multi-bin swaps that hold for every
//! input: what a swap may pay out, how fees relate to amounts, and what a
//! swap leaves unchanged in the pool.
use crate::dynamic_fee::{
    advance_active_bin_result, compute_fee_from_amount_result, fee_charged_on_input,
    lemma_fees_within_amount, next_volatility_accumulator, supports_limit_order,
    update_references_result, with_volatility_accumulator, PoolView,
};
use crate::swap_full::{
    bins_sorted, bin_fill, in_reach, lemma_liquidity_in_reach_bounds, liquidity_in_reach, next_id, total_liquidity, exact_out_at_bin_result, bin_with_id, bins_ahead, exact_in_at_bin_result, exact_in_bin_step, exact_in_swap_result,
    exact_in_walk, exact_out_bin_step, exact_out_swap_result, exact_out_walk, layer_fill,
    lemma_bin_fill_properties, lemma_layer_fill_properties, lemma_split_fee_properties, past_supplied_bins, split_fee_result, SwapTotals,
};
use crate::swap_math::{
    amount_in_result, amount_out_result, lemma_partial_input_yields_less, limit_order_amounts, max_amount_out,
    max_amount_out_with_limit_orders, stored_price_result, BinView,
};
use crate::error::ErrorCode;
use crate::u128x128_math::Rounding;
use vstd::arithmetic::div_mod::*;
use vstd::prelude::*;

verus! {

/// A swap step inside one bin pays out at most the bin's output liquidity,
/// its protocol fee is part of its fee, and when the fee is charged on
/// input the fee is part of the input consumed.
pub proof fn lemma_exact_in_step_bounded(
    bin: BinView,
    pool: PoolView,
    in_amount: u64,
    swap_for_y: bool,
    support_limit_order: bool,
    fee_on_input: bool,
)
    ensures
        exact_in_at_bin_result(bin, pool, in_amount, swap_for_y, support_limit_order, fee_on_input) matches Ok(quote)
            ==> quote.amount_out <= max_amount_out_with_limit_orders(bin, swap_for_y, support_limit_order)
                && quote.protocol_fee <= quote.fee
                && (fee_on_input ==> quote.fee <= quote.amount_in),
{
    reveal(exact_in_at_bin_result);
    lemma_fees_within_amount(pool, in_amount);
    let fee0: u64 = if fee_on_input {
        match compute_fee_from_amount_result(pool, in_amount) {
            Ok(f) => f,
            Err(_) => 0,
        }
    } else {
        0
    };
    let excluded_in = (in_amount - fee0) as u64;
    lemma_bin_fill_properties(bin, excluded_in, swap_for_y, support_limit_order);
    if let Ok((filled_in, left, out, mm_in)) = bin_fill(bin, excluded_in, swap_for_y, support_limit_order) {
        lemma_fees_within_amount(pool, out);
        if let Ok(quote) = exact_in_at_bin_result(bin, pool, in_amount, swap_for_y, support_limit_order, fee_on_input) {
            lemma_split_fee_properties(quote.fee, pool.parameters.protocol_share, mm_in, filled_in);
        }
    }
}

/// When the fee is charged on input, the fee of a swap step producing an
/// exact output is part of the input it consumes.
pub proof fn lemma_exact_out_step_fee_within_input(
    bin: BinView,
    pool: PoolView,
    out_amount: u64,
    swap_for_y: bool,
    support_limit_order: bool,
    fee_on_input: bool,
)
    ensures
        exact_out_at_bin_result(bin, pool, out_amount, swap_for_y, support_limit_order, fee_on_input) matches Ok(quote)
            ==> (fee_on_input ==> quote.fee <= quote.amount_in),
{
    reveal(exact_out_at_bin_result);
    lemma_exact_in_step_bounded(bin, pool, u64::MAX, swap_for_y, support_limit_order, fee_on_input);
    if let Ok(included_fee_amount_out) = (if fee_on_input {
        Ok::<u64, crate::error::ErrorCode>(out_amount)
    } else {
        match crate::dynamic_fee::compute_fee_result(pool, out_amount) {
            Err(e) => Err(e),
            Ok(fee) => if out_amount + fee > u64::MAX { Err(crate::error::ErrorCode::MathOverflow) } else { Ok((out_amount + fee) as u64) },
        }
    }) {
        if let Ok(excluded_in) = crate::swap_full::excluded_fee_amount_in_result(bin, swap_for_y, included_fee_amount_out) {
            if fee_on_input {
                if let Ok(fee) = crate::dynamic_fee::compute_fee_result(pool, excluded_in) {
                    if excluded_in + fee <= u64::MAX {
                        lemma_exact_in_step_bounded(bin, pool, (excluded_in + fee) as u64, swap_for_y, support_limit_order, fee_on_input);
                    }
                }
            } else {
                lemma_exact_in_step_bounded(bin, pool, excluded_in, swap_for_y, support_limit_order, fee_on_input);
            }
        }
    }
}

/// Among sorted bins, none has an id past the supplied bins.
proof fn lemma_no_bin_past_supplied(bins: Seq<BinView>, active_id: i32, swap_for_y: bool)
    requires
        bins_sorted(bins),
        past_supplied_bins(bins, active_id, swap_for_y),
    ensures
        bin_with_id(bins, active_id) is None,
{
    assert forall|i: int| 0 <= i < bins.len() implies bins[i].bin_id != active_id by {
        if 0 < i {
            assert(bins[0].bin_id < bins[i].bin_id);
        }
        if i < bins.len() - 1 {
            assert(bins[i].bin_id < bins[bins.len() - 1].bin_id);
        }
    }
}

/// Facts about one bin step of an exact-in swap.
proof fn lemma_exact_in_bin_step_bounded(
    bins: Seq<BinView>,
    pool: PoolView,
    amount_left: u64,
    totals: SwapTotals,
    swap_for_y: bool,
    support_limit_order: bool,
    fee_on_input: bool,
)
    ensures
        exact_in_bin_step(bins, pool, amount_left, totals, swap_for_y, support_limit_order, fee_on_input)
            matches Ok((stepped, left, next_totals))
            ==> stepped.active_id == pool.active_id
                && stepped.parameters == pool.parameters
                && stepped.bin_step == pool.bin_step
                && stepped.has_rewards == pool.has_rewards
                && (pool.v_parameters.volatility_accumulator <= pool.parameters.max_volatility_accumulator
                    ==> stepped.v_parameters.volatility_accumulator <= pool.parameters.max_volatility_accumulator)
                && left <= amount_left
                && next_totals.0 <= totals.0 + liquidity_in_reach(bins, pool.active_id as int, swap_for_y, support_limit_order)
                    - liquidity_in_reach(bins, next_id(pool.active_id as int, swap_for_y), swap_for_y, support_limit_order)
                && (totals.2 <= totals.1 ==> next_totals.2 <= next_totals.1)
                && (fee_on_input ==> next_totals.1 + left <= totals.1 + amount_left),
{
    reveal(exact_in_bin_step);
    lemma_liquidity_in_reach_bounds(bins, pool.active_id as int, swap_for_y, support_limit_order);
    if let Some(bin) = bin_with_id(bins, pool.active_id) {
        let k = choose|i: int| 0 <= i < bins.len() && bins[i].bin_id == pool.active_id;
        assert(bins[k] == bin);
        let updated = with_volatility_accumulator(pool, next_volatility_accumulator(pool));
        lemma_exact_in_step_bounded(bin, updated, amount_left, swap_for_y, support_limit_order, fee_on_input);
    }
}

/// Facts about the rest of an exact-in walk.
proof fn lemma_exact_in_walk_bounded(
    bins: Seq<BinView>,
    pool: PoolView,
    amount_left: u64,
    totals: SwapTotals,
    swap_for_y: bool,
    support_limit_order: bool,
    fee_on_input: bool,
)
    ensures
        exact_in_walk(bins, pool, amount_left, totals, swap_for_y, support_limit_order, fee_on_input)
            matches Ok((after, final_totals))
            ==> after.parameters == pool.parameters
                && after.bin_step == pool.bin_step
                && after.has_rewards == pool.has_rewards
                && (pool.v_parameters.volatility_accumulator <= pool.parameters.max_volatility_accumulator
                    ==> after.v_parameters.volatility_accumulator <= pool.parameters.max_volatility_accumulator)
                && (bins_sorted(bins) ==> active_within_walk(bins, pool.active_id, after.active_id, swap_for_y))
                && final_totals.0 <= totals.0 + liquidity_in_reach(bins, pool.active_id as int, swap_for_y, support_limit_order)
                && (totals.2 <= totals.1 ==> final_totals.2 <= final_totals.1)
                && (fee_on_input ==> final_totals.1 <= totals.1 + amount_left),
    decreases bins_ahead(bins, pool.active_id, swap_for_y),
{
    lemma_liquidity_in_reach_bounds(bins, pool.active_id as int, swap_for_y, support_limit_order);
    if amount_left > 0 {
        lemma_exact_in_bin_step_bounded(bins, pool, amount_left, totals, swap_for_y, support_limit_order, fee_on_input);
        if let Ok((stepped, left, next_totals)) = exact_in_bin_step(
            bins,
            pool,
            amount_left,
            totals,
            swap_for_y,
            support_limit_order,
            fee_on_input,
        ) {
            if left > 0 && !past_supplied_bins(bins, stepped.active_id, swap_for_y) {
                let (advanced, outcome) = advance_active_bin_result(stepped, swap_for_y);
                if outcome is Ok {
                    lemma_exact_in_walk_bounded(bins, advanced, left, next_totals, swap_for_y, support_limit_order, fee_on_input);
                    if bins_sorted(bins) && past_supplied_bins(bins, advanced.active_id, swap_for_y) {
                        lemma_no_bin_past_supplied(bins, advanced.active_id, swap_for_y);
                        reveal(exact_in_bin_step);
                    }
                }
            }
        }
    }
}

/// Where the active bin can end up after a walk from `start` (the same
/// for exact-in and exact-out): it moves only in the swap direction, and
/// when it moves it stays within the supplied bins.
pub open spec fn active_within_walk(bins: Seq<BinView>, start: i32, end: i32, swap_for_y: bool) -> bool {
    if swap_for_y {
        end <= start && (end == start || (bins.len() > 0 && end >= bins[0].bin_id))
    } else {
        end >= start && (end == start || (bins.len() > 0 && end <= bins.last().bin_id))
    }
}

/// Facts about one bin step of an exact-out swap.
proof fn lemma_exact_out_bin_step_keeps(
    bins: Seq<BinView>,
    pool: PoolView,
    amount_out_left: u64,
    totals: SwapTotals,
    swap_for_y: bool,
    support_limit_order: bool,
    fee_on_input: bool,
)
    ensures
        exact_out_bin_step(bins, pool, amount_out_left, totals, swap_for_y, support_limit_order, fee_on_input)
            matches Ok((stepped, left, next_totals))
            ==> stepped.active_id == pool.active_id
                && stepped.parameters == pool.parameters
                && stepped.bin_step == pool.bin_step
                && stepped.has_rewards == pool.has_rewards
                && (pool.v_parameters.volatility_accumulator <= pool.parameters.max_volatility_accumulator
                    ==> stepped.v_parameters.volatility_accumulator <= pool.parameters.max_volatility_accumulator)
                && (fee_on_input && totals.1 <= totals.0 ==> next_totals.1 <= next_totals.0),
{
    reveal(exact_out_bin_step);
    if let Some(stored) = bin_with_id(bins, pool.active_id) {
        let bin = stored_price_result(stored, pool.bin_step).0;
        let updated = with_volatility_accumulator(pool, next_volatility_accumulator(pool));
        lemma_exact_out_step_fee_within_input(bin, updated, amount_out_left, swap_for_y, support_limit_order, fee_on_input);
    }
}

/// Facts about the rest of an exact-out walk.
proof fn lemma_exact_out_walk_keeps(
    bins: Seq<BinView>,
    pool: PoolView,
    amount_out_left: u64,
    totals: SwapTotals,
    swap_for_y: bool,
    support_limit_order: bool,
    fee_on_input: bool,
)
    ensures
        exact_out_walk(bins, pool, amount_out_left, totals, swap_for_y, support_limit_order, fee_on_input)
            matches Ok((after, final_totals))
            ==> after.parameters == pool.parameters
                && after.bin_step == pool.bin_step
                && after.has_rewards == pool.has_rewards
                && (pool.v_parameters.volatility_accumulator <= pool.parameters.max_volatility_accumulator
                    ==> after.v_parameters.volatility_accumulator <= pool.parameters.max_volatility_accumulator)
                && (bins_sorted(bins) ==> active_within_walk(bins, pool.active_id, after.active_id, swap_for_y))
                && (fee_on_input && totals.1 <= totals.0 ==> final_totals.1 <= final_totals.0),
    decreases bins_ahead(bins, pool.active_id, swap_for_y),
{
    if amount_out_left > 0 {
        lemma_exact_out_bin_step_keeps(bins, pool, amount_out_left, totals, swap_for_y, support_limit_order, fee_on_input);
        if let Ok((stepped, left, next_totals)) = exact_out_bin_step(
            bins,
            pool,
            amount_out_left,
            totals,
            swap_for_y,
            support_limit_order,
            fee_on_input,
        ) {
            if left > 0 && !past_supplied_bins(bins, stepped.active_id, swap_for_y) {
                let (advanced, outcome) = advance_active_bin_result(stepped, swap_for_y);
                if outcome is Ok {
                    lemma_exact_out_walk_keeps(bins, advanced, left, next_totals, swap_for_y, support_limit_order, fee_on_input);
                    if bins_sorted(bins) && past_supplied_bins(bins, advanced.active_id, swap_for_y) {
                        lemma_no_bin_past_supplied(bins, advanced.active_id, swap_for_y);
                        reveal(exact_out_bin_step);
                    }
                }
            }
        }
    }
}

/// A swap step inside one bin producing an exact output delivers at most
/// the bin's output liquidity.
proof fn lemma_exact_out_step_within_liquidity(
    bin: BinView,
    pool: PoolView,
    out_amount: u64,
    swap_for_y: bool,
    support_limit_order: bool,
    fee_on_input: bool,
)
    ensures
        exact_out_at_bin_result(bin, pool, out_amount, swap_for_y, support_limit_order, fee_on_input) matches Ok(quote)
            ==> quote.amount_out <= max_amount_out_with_limit_orders(bin, swap_for_y, support_limit_order),
{
    reveal(exact_out_at_bin_result);
    lemma_exact_in_step_bounded(bin, pool, u64::MAX, swap_for_y, support_limit_order, fee_on_input);
}

/// Facts about the output one bin step of an exact-out swap delivers.
proof fn lemma_exact_out_bin_step_within_liquidity(
    bins: Seq<BinView>,
    pool: PoolView,
    amount_out_left: u64,
    totals: SwapTotals,
    swap_for_y: bool,
    support_limit_order: bool,
    fee_on_input: bool,
)
    ensures
        exact_out_bin_step(bins, pool, amount_out_left, totals, swap_for_y, support_limit_order, fee_on_input)
            matches Ok((stepped, left, next_totals))
            ==> left <= amount_out_left
                && amount_out_left - left <= liquidity_in_reach(bins, pool.active_id as int, swap_for_y, support_limit_order)
                    - liquidity_in_reach(bins, next_id(pool.active_id as int, swap_for_y), swap_for_y, support_limit_order),
{
    reveal(exact_out_bin_step);
    lemma_liquidity_in_reach_bounds(bins, pool.active_id as int, swap_for_y, support_limit_order);
    if let Some(stored) = bin_with_id(bins, pool.active_id) {
        let k = choose|i: int| 0 <= i < bins.len() && bins[i].bin_id == pool.active_id;
        assert(bins[k] == stored);
        let bin = stored_price_result(stored, pool.bin_step).0;
        assert(max_amount_out_with_limit_orders(bin, swap_for_y, support_limit_order)
            == max_amount_out_with_limit_orders(stored, swap_for_y, support_limit_order));
        let updated = with_volatility_accumulator(pool, next_volatility_accumulator(pool));
        lemma_exact_out_step_within_liquidity(bin, updated, amount_out_left, swap_for_y, support_limit_order, fee_on_input);
    }
}

/// An exact-out walk succeeds only when the output still to deliver is
/// within the liquidity at or beyond the active bin.
proof fn lemma_exact_out_walk_within_liquidity(
    bins: Seq<BinView>,
    pool: PoolView,
    amount_out_left: u64,
    totals: SwapTotals,
    swap_for_y: bool,
    support_limit_order: bool,
    fee_on_input: bool,
)
    ensures
        exact_out_walk(bins, pool, amount_out_left, totals, swap_for_y, support_limit_order, fee_on_input) is Ok
            ==> amount_out_left <= liquidity_in_reach(bins, pool.active_id as int, swap_for_y, support_limit_order),
    decreases bins_ahead(bins, pool.active_id, swap_for_y),
{
    lemma_liquidity_in_reach_bounds(bins, pool.active_id as int, swap_for_y, support_limit_order);
    if amount_out_left > 0 {
        lemma_exact_out_bin_step_keeps(bins, pool, amount_out_left, totals, swap_for_y, support_limit_order, fee_on_input);
        lemma_exact_out_bin_step_within_liquidity(bins, pool, amount_out_left, totals, swap_for_y, support_limit_order, fee_on_input);
        if let Ok((stepped, left, next_totals)) = exact_out_bin_step(
            bins,
            pool,
            amount_out_left,
            totals,
            swap_for_y,
            support_limit_order,
            fee_on_input,
        ) {
            if left > 0 && !past_supplied_bins(bins, stepped.active_id, swap_for_y) {
                let (advanced, outcome) = advance_active_bin_result(stepped, swap_for_y);
                if outcome is Ok {
                    lemma_exact_out_walk_within_liquidity(bins, advanced, left, next_totals, swap_for_y, support_limit_order, fee_on_input);
                }
            }
        }
    }
}

/// An exact-out swap succeeds only when the supplied bins at or beyond the
/// pool's active bin in the swap direction hold the requested output, and
/// so never when it asks for more than all supplied bins hold.
pub proof fn law_exact_out_output_within_liquidity(pool: PoolView, bins: Seq<BinView>, amount_out: u64, swap_for_y: bool, current_timestamp: i64)
    ensures
        exact_out_swap_result(pool, bins, amount_out, swap_for_y, current_timestamp) is Ok
            ==> amount_out <= liquidity_in_reach(bins, pool.active_id as int, swap_for_y, supports_limit_order(pool))
                && amount_out <= total_liquidity(bins, swap_for_y, supports_limit_order(pool)),
{
    let referenced = update_references_result(pool, current_timestamp).0;
    lemma_liquidity_in_reach_bounds(bins, pool.active_id as int, swap_for_y, supports_limit_order(pool));
    lemma_exact_out_walk_within_liquidity(
        bins,
        referenced,
        amount_out,
        (0, 0, 0),
        swap_for_y,
        supports_limit_order(referenced),
        fee_charged_on_input(referenced, swap_for_y),
    );
}

/// An exact-in swap never pays out more than the output liquidity of the
/// supplied bins at or beyond the pool's active bin in the swap direction,
/// and so never more than the output liquidity of all supplied bins.
pub proof fn law_exact_in_output_within_liquidity(pool: PoolView, bins: Seq<BinView>, amount_in: u64, swap_for_y: bool, current_timestamp: i64)
    ensures
        exact_in_swap_result(pool, bins, amount_in, swap_for_y, current_timestamp) matches Ok(quote)
            ==> quote.amount_out <= liquidity_in_reach(bins, pool.active_id as int, swap_for_y, supports_limit_order(pool))
                && quote.amount_out <= total_liquidity(bins, swap_for_y, supports_limit_order(pool)),
{
    let referenced = update_references_result(pool, current_timestamp).0;
    lemma_liquidity_in_reach_bounds(bins, pool.active_id as int, swap_for_y, supports_limit_order(pool));
    lemma_exact_in_walk_bounded(
        bins,
        referenced,
        amount_in,
        (0, 0, 0),
        swap_for_y,
        supports_limit_order(referenced),
        fee_charged_on_input(referenced, swap_for_y),
    );
}

/// The protocol fee of an exact-in swap is part of its fee.
pub proof fn law_exact_in_protocol_fee_within_fee(pool: PoolView, bins: Seq<BinView>, amount_in: u64, swap_for_y: bool, current_timestamp: i64)
    ensures
        exact_in_swap_result(pool, bins, amount_in, swap_for_y, current_timestamp) matches Ok(quote)
            ==> quote.protocol_fee <= quote.fee,
{
    let referenced = update_references_result(pool, current_timestamp).0;
    lemma_exact_in_walk_bounded(
        bins,
        referenced,
        amount_in,
        (0, 0, 0),
        swap_for_y,
        supports_limit_order(referenced),
        fee_charged_on_input(referenced, swap_for_y),
    );
}

/// When the fee is charged on the input token, the fee of an exact-in swap
/// never exceeds the input amount.
pub proof fn law_exact_in_fee_within_input(pool: PoolView, bins: Seq<BinView>, amount_in: u64, swap_for_y: bool, current_timestamp: i64)
    requires
        fee_charged_on_input(pool, swap_for_y),
    ensures
        exact_in_swap_result(pool, bins, amount_in, swap_for_y, current_timestamp) matches Ok(quote)
            ==> quote.fee <= amount_in,
{
    let referenced = update_references_result(pool, current_timestamp).0;
    lemma_exact_in_walk_bounded(
        bins,
        referenced,
        amount_in,
        (0, 0, 0),
        swap_for_y,
        supports_limit_order(referenced),
        fee_charged_on_input(referenced, swap_for_y),
    );
}

/// When the fee is charged on the input token, the fee of an exact-out
/// swap is part of its input amount.
pub proof fn law_exact_out_fee_within_input(pool: PoolView, bins: Seq<BinView>, amount_out: u64, swap_for_y: bool, current_timestamp: i64)
    requires
        fee_charged_on_input(pool, swap_for_y),
    ensures
        exact_out_swap_result(pool, bins, amount_out, swap_for_y, current_timestamp) matches Ok(quote)
            ==> quote.fee <= quote.amount_in,
{
    let referenced = update_references_result(pool, current_timestamp).0;
    lemma_exact_out_walk_keeps(
        bins,
        referenced,
        amount_out,
        (0, 0, 0),
        swap_for_y,
        supports_limit_order(referenced),
        fee_charged_on_input(referenced, swap_for_y),
    );
}

/// A swap (exact-in or exact-out) keeps the pool's bin step, reward flag and
/// static parameters, keeps the volatility accumulator within its cap when
/// it started there, and moves the active bin only in the swap direction,
/// and only within the supplied bins.
pub proof fn law_swap_pool_after(pool: PoolView, bins: Seq<BinView>, amount: u64, swap_for_y: bool, current_timestamp: i64)
    requires
        bins_sorted(bins),
    ensures
        exact_in_swap_result(pool, bins, amount, swap_for_y, current_timestamp) matches Ok(quote)
            ==> pool_after_consistent(pool, quote.pool_after, bins, swap_for_y),
        exact_out_swap_result(pool, bins, amount, swap_for_y, current_timestamp) matches Ok(quote)
            ==> pool_after_consistent(pool, quote.pool_after, bins, swap_for_y),
{
    let referenced = update_references_result(pool, current_timestamp).0;
    lemma_exact_in_walk_bounded(
        bins,
        referenced,
        amount,
        (0, 0, 0),
        swap_for_y,
        supports_limit_order(referenced),
        fee_charged_on_input(referenced, swap_for_y),
    );
    lemma_exact_out_walk_keeps(
        bins,
        referenced,
        amount,
        (0, 0, 0),
        swap_for_y,
        supports_limit_order(referenced),
        fee_charged_on_input(referenced, swap_for_y),
    );
}

/// The post-swap pool `after` keeps what a swap does not change in `before`,
/// its volatility accumulator stays within the cap if it started there, and
/// its active bin is where a walk from `before` can end.
pub open spec fn pool_after_consistent(before: PoolView, after: PoolView, bins: Seq<BinView>, swap_for_y: bool) -> bool {
    &&& after.parameters == before.parameters
    &&& after.bin_step == before.bin_step
    &&& after.has_rewards == before.has_rewards
    &&& (before.v_parameters.volatility_accumulator <= before.parameters.max_volatility_accumulator
        ==> after.v_parameters.volatility_accumulator <= before.parameters.max_volatility_accumulator)
    &&& active_within_walk(bins, before.active_id, after.active_id, swap_for_y)
}

proof fn lemma_sorted_insert(bins: Seq<BinView>, k: int, inserted: BinView)
    requires
        0 <= k <= bins.len(),
        bins_sorted(bins.insert(k, inserted)),
    ensures
        bins_sorted(bins),
        forall|i: int| 0 <= i < bins.len() ==> #[trigger] bins[i].bin_id != inserted.bin_id,
{
    let full = bins.insert(k, inserted);
    assert forall|i: int, j: int| 0 <= i < j < bins.len() implies bins[i].bin_id < bins[j].bin_id by {
        let fi = if i < k { i } else { i + 1 };
        let fj = if j < k { j } else { j + 1 };
        assert(full[fi] == bins[i]);
        assert(full[fj] == bins[j]);
    }
    assert forall|i: int| 0 <= i < bins.len() implies #[trigger] bins[i].bin_id != inserted.bin_id by {
        let fi = if i < k { i } else { i + 1 };
        assert(full[fi] == bins[i]);
        assert(full[k] == inserted);
    }
}

proof fn lemma_bin_with_id_insert(bins: Seq<BinView>, k: int, inserted: BinView, bin_id: i32)
    requires
        0 <= k <= bins.len(),
        bins_sorted(bins.insert(k, inserted)),
    ensures
        bin_with_id(bins.insert(k, inserted), bin_id)
            == (if bin_id == inserted.bin_id { Some(inserted) } else { bin_with_id(bins, bin_id) }),
{
    let full = bins.insert(k, inserted);
    lemma_sorted_insert(bins, k, inserted);
    if bin_id == inserted.bin_id {
        assert(full[k] == inserted);
        let i = choose|i: int| 0 <= i < full.len() && full[i].bin_id == bin_id;
        assert(i == k);
    } else if exists|j: int| 0 <= j < bins.len() && bins[j].bin_id == bin_id {
        let j = choose|j: int| 0 <= j < bins.len() && bins[j].bin_id == bin_id;
        let fj = if j < k { j } else { j + 1 };
        assert(full[fj] == bins[j]);
        let i = choose|i: int| 0 <= i < full.len() && full[i].bin_id == bin_id;
        assert(i == fj);
    } else {
        assert forall|i: int| 0 <= i < full.len() implies full[i].bin_id != bin_id by {
            if i < k {
                assert(full[i] == bins[i]);
            } else if i > k {
                assert(full[i] == bins[i - 1]);
            }
        }
    }
}

proof fn lemma_exact_in_step_ignores_empty_bin(
    bins: Seq<BinView>,
    k: int,
    empty: BinView,
    pool: PoolView,
    amount_left: u64,
    totals: SwapTotals,
    swap_for_y: bool,
    support_limit_order: bool,
    fee_on_input: bool,
)
    requires
        0 < k < bins.len(),
        bins_sorted(bins.insert(k, empty)),
        max_amount_out_with_limit_orders(empty, swap_for_y, support_limit_order) == 0,
    ensures
        exact_in_bin_step(bins.insert(k, empty), pool, amount_left, totals, swap_for_y, support_limit_order, fee_on_input)
            == exact_in_bin_step(bins, pool, amount_left, totals, swap_for_y, support_limit_order, fee_on_input),
{
    reveal(exact_in_bin_step);
    lemma_bin_with_id_insert(bins, k, empty, pool.active_id);
    lemma_sorted_insert(bins, k, empty);
    if pool.active_id == empty.bin_id {
        assert(bin_with_id(bins, pool.active_id) is None);
    }
}

proof fn lemma_exact_out_step_ignores_empty_bin(
    bins: Seq<BinView>,
    k: int,
    empty: BinView,
    pool: PoolView,
    amount_out_left: u64,
    totals: SwapTotals,
    swap_for_y: bool,
    support_limit_order: bool,
    fee_on_input: bool,
)
    requires
        0 < k < bins.len(),
        bins_sorted(bins.insert(k, empty)),
        max_amount_out_with_limit_orders(empty, swap_for_y, support_limit_order) == 0,
        stored_price_result(empty, pool.bin_step).1 is Ok,
    ensures
        exact_out_bin_step(bins.insert(k, empty), pool, amount_out_left, totals, swap_for_y, support_limit_order, fee_on_input)
            == exact_out_bin_step(bins, pool, amount_out_left, totals, swap_for_y, support_limit_order, fee_on_input),
{
    reveal(exact_out_bin_step);
    lemma_bin_with_id_insert(bins, k, empty, pool.active_id);
    lemma_sorted_insert(bins, k, empty);
    if pool.active_id == empty.bin_id {
        assert(bin_with_id(bins, pool.active_id) is None);
        let resolved = stored_price_result(empty, pool.bin_step).0;
        assert(max_amount_out_with_limit_orders(resolved, swap_for_y, support_limit_order) == 0);
    }
}

proof fn lemma_exact_in_walk_ignores_empty_bin(
    bins: Seq<BinView>,
    k: int,
    empty: BinView,
    pool: PoolView,
    amount_left: u64,
    totals: SwapTotals,
    swap_for_y: bool,
    support_limit_order: bool,
    fee_on_input: bool,
)
    requires
        0 < k < bins.len(),
        bins_sorted(bins.insert(k, empty)),
        max_amount_out_with_limit_orders(empty, swap_for_y, support_limit_order) == 0,
    ensures
        exact_in_walk(bins.insert(k, empty), pool, amount_left, totals, swap_for_y, support_limit_order, fee_on_input)
            == exact_in_walk(bins, pool, amount_left, totals, swap_for_y, support_limit_order, fee_on_input),
    decreases bins_ahead(bins, pool.active_id, swap_for_y),
{
    let full = bins.insert(k, empty);
    assert(full[0] == bins[0]);
    assert(full.last() == bins.last());
    lemma_bin_with_id_insert(bins, k, empty, pool.active_id);
    reveal(exact_in_bin_step);
    lemma_exact_in_step_ignores_empty_bin(bins, k, empty, pool, amount_left, totals, swap_for_y, support_limit_order, fee_on_input);
    assert(forall|a: i32| past_supplied_bins(full, a, swap_for_y) == past_supplied_bins(bins, a, swap_for_y));
    if amount_left > 0 {
        if let Ok((stepped, left, next_totals)) = exact_in_bin_step(
            bins,
            pool,
            amount_left,
            totals,
            swap_for_y,
            support_limit_order,
            fee_on_input,
        ) {
            if left > 0 && !past_supplied_bins(bins, stepped.active_id, swap_for_y) {
                let (advanced, outcome) = advance_active_bin_result(stepped, swap_for_y);
                if outcome is Ok {
                    lemma_exact_in_walk_ignores_empty_bin(
                        bins,
                        k,
                        empty,
                        advanced,
                        left,
                        next_totals,
                        swap_for_y,
                        support_limit_order,
                        fee_on_input,
                    );
                }
            }
        }
    }
}

proof fn lemma_exact_out_walk_ignores_empty_bin(
    bins: Seq<BinView>,
    k: int,
    empty: BinView,
    pool: PoolView,
    amount_out_left: u64,
    totals: SwapTotals,
    swap_for_y: bool,
    support_limit_order: bool,
    fee_on_input: bool,
)
    requires
        0 < k < bins.len(),
        bins_sorted(bins.insert(k, empty)),
        max_amount_out_with_limit_orders(empty, swap_for_y, support_limit_order) == 0,
        stored_price_result(empty, pool.bin_step).1 is Ok,
    ensures
        exact_out_walk(bins.insert(k, empty), pool, amount_out_left, totals, swap_for_y, support_limit_order, fee_on_input)
            == exact_out_walk(bins, pool, amount_out_left, totals, swap_for_y, support_limit_order, fee_on_input),
    decreases bins_ahead(bins, pool.active_id, swap_for_y),
{
    let full = bins.insert(k, empty);
    assert(full[0] == bins[0]);
    assert(full.last() == bins.last());
    lemma_bin_with_id_insert(bins, k, empty, pool.active_id);
    reveal(exact_out_bin_step);
    lemma_exact_out_step_ignores_empty_bin(bins, k, empty, pool, amount_out_left, totals, swap_for_y, support_limit_order, fee_on_input);
    assert(forall|a: i32| past_supplied_bins(full, a, swap_for_y) == past_supplied_bins(bins, a, swap_for_y));
    if amount_out_left > 0 {
        if let Ok((stepped, left, next_totals)) = exact_out_bin_step(
            bins,
            pool,
            amount_out_left,
            totals,
            swap_for_y,
            support_limit_order,
            fee_on_input,
        ) {
            if left > 0 && !past_supplied_bins(bins, stepped.active_id, swap_for_y) {
                let (advanced, outcome) = advance_active_bin_result(stepped, swap_for_y);
                if outcome is Ok {
                    lemma_exact_out_walk_ignores_empty_bin(
                        bins,
                        k,
                        empty,
                        advanced,
                        left,
                        next_totals,
                        swap_for_y,
                        support_limit_order,
                        fee_on_input,
                    );
                }
            }
        }
    }
}

/// A bin with no output liquidity in the swap direction, supplied strictly
/// between two other bins, swaps exactly like an absent id: inserting it
/// changes neither an exact-in swap nor (when its price can be resolved)
/// an exact-out swap.
pub proof fn law_empty_bin_same_as_absent(
    pool: PoolView,
    bins: Seq<BinView>,
    k: int,
    empty: BinView,
    amount: u64,
    swap_for_y: bool,
    current_timestamp: i64,
)
    requires
        0 < k < bins.len(),
        bins_sorted(bins.insert(k, empty)),
        max_amount_out_with_limit_orders(empty, swap_for_y, supports_limit_order(pool)) == 0,
    ensures
        exact_in_swap_result(pool, bins.insert(k, empty), amount, swap_for_y, current_timestamp)
            == exact_in_swap_result(pool, bins, amount, swap_for_y, current_timestamp),
        stored_price_result(empty, pool.bin_step).1 is Ok
            ==> exact_out_swap_result(pool, bins.insert(k, empty), amount, swap_for_y, current_timestamp)
                == exact_out_swap_result(pool, bins, amount, swap_for_y, current_timestamp),
{
    let referenced = update_references_result(pool, current_timestamp).0;
    lemma_exact_in_walk_ignores_empty_bin(
        bins,
        k,
        empty,
        referenced,
        amount,
        (0, 0, 0),
        swap_for_y,
        supports_limit_order(referenced),
        fee_charged_on_input(referenced, swap_for_y),
    );
    if stored_price_result(empty, pool.bin_step).1 is Ok {
        lemma_exact_out_walk_ignores_empty_bin(
            bins,
            k,
            empty,
            referenced,
            amount,
            (0, 0, 0),
            swap_for_y,
            supports_limit_order(referenced),
            fee_charged_on_input(referenced, swap_for_y),
        );
    }
}

/// `resolved` is `bins` with each bin's price resolved at `bin_step`: a
/// stored price of 0 replaced by the price of the bin's id (every such
/// price can be computed).
pub open spec fn prices_resolved(bins: Seq<BinView>, resolved: Seq<BinView>, bin_step: u16) -> bool {
    &&& resolved.len() == bins.len()
    &&& forall|i: int|
        0 <= i < bins.len() ==> (#[trigger] stored_price_result(bins[i], bin_step)).1 is Ok
            && resolved[i] == stored_price_result(bins[i], bin_step).0
}

proof fn lemma_resolved_ids(bins: Seq<BinView>, resolved: Seq<BinView>, bin_step: u16)
    requires
        prices_resolved(bins, resolved, bin_step),
    ensures
        forall|i: int| 0 <= i < bins.len() ==> #[trigger] resolved[i].bin_id == bins[i].bin_id,
        bins_sorted(bins) ==> bins_sorted(resolved),
        forall|a: i32, swap_for_y: bool| #[trigger] past_supplied_bins(resolved, a, swap_for_y) == past_supplied_bins(bins, a, swap_for_y),
        forall|a: i32, swap_for_y: bool| #[trigger] bins_ahead(resolved, a, swap_for_y) == bins_ahead(bins, a, swap_for_y),
{
    assert forall|i: int| 0 <= i < bins.len() implies #[trigger] resolved[i].bin_id == bins[i].bin_id by {
        assert(stored_price_result(bins[i], bin_step).1 is Ok);
    }
    if bins.len() > 0 {
        assert(resolved[0].bin_id == bins[0].bin_id);
        assert(resolved[bins.len() - 1].bin_id == bins[bins.len() - 1].bin_id);
    }
}

/// Resolving a bin's price twice gives what resolving it once gives.
proof fn lemma_stored_price_idempotent(bin: BinView, bin_step: u16)
    requires
        stored_price_result(bin, bin_step).1 is Ok,
    ensures
        stored_price_result(stored_price_result(bin, bin_step).0, bin_step) == stored_price_result(bin, bin_step),
{
}

proof fn lemma_bin_with_id_resolved(bins: Seq<BinView>, resolved: Seq<BinView>, bin_step: u16, bin_id: i32)
    requires
        bins_sorted(bins),
        prices_resolved(bins, resolved, bin_step),
    ensures
        bin_with_id(resolved, bin_id) == (match bin_with_id(bins, bin_id) {
            None => None,
            Some(bin) => Some(stored_price_result(bin, bin_step).0),
        }),
{
    lemma_resolved_ids(bins, resolved, bin_step);
    if exists|i: int| 0 <= i < bins.len() && bins[i].bin_id == bin_id {
        let i = choose|i: int| 0 <= i < bins.len() && bins[i].bin_id == bin_id;
        assert(resolved[i].bin_id == bin_id);
        let j = choose|j: int| 0 <= j < resolved.len() && resolved[j].bin_id == bin_id;
        assert(resolved[j].bin_id == bins[j].bin_id);
        assert(i == j);
        assert(stored_price_result(bins[i], bin_step).1 is Ok);
    } else {
        assert forall|j: int| 0 <= j < resolved.len() implies resolved[j].bin_id != bin_id by {
            assert(resolved[j].bin_id == bins[j].bin_id);
        }
    }
}

proof fn lemma_exact_out_step_resolved(
    bins: Seq<BinView>,
    resolved: Seq<BinView>,
    pool: PoolView,
    amount_out_left: u64,
    totals: SwapTotals,
    swap_for_y: bool,
    support_limit_order: bool,
    fee_on_input: bool,
)
    requires
        bins_sorted(bins),
        prices_resolved(bins, resolved, pool.bin_step),
    ensures
        exact_out_bin_step(resolved, pool, amount_out_left, totals, swap_for_y, support_limit_order, fee_on_input)
            == exact_out_bin_step(bins, pool, amount_out_left, totals, swap_for_y, support_limit_order, fee_on_input),
{
    reveal(exact_out_bin_step);
    lemma_bin_with_id_resolved(bins, resolved, pool.bin_step, pool.active_id);
    if let Some(stored) = bin_with_id(bins, pool.active_id) {
        let k = choose|i: int| 0 <= i < bins.len() && bins[i].bin_id == pool.active_id;
        assert(bins[k] == stored);
        assert(stored_price_result(bins[k], pool.bin_step).1 is Ok);
        lemma_stored_price_idempotent(stored, pool.bin_step);
    }
}

proof fn lemma_exact_out_walk_resolved(
    bins: Seq<BinView>,
    resolved: Seq<BinView>,
    bin_step: u16,
    pool: PoolView,
    amount_out_left: u64,
    totals: SwapTotals,
    swap_for_y: bool,
    support_limit_order: bool,
    fee_on_input: bool,
)
    requires
        bins_sorted(bins),
        prices_resolved(bins, resolved, bin_step),
        pool.bin_step == bin_step,
    ensures
        exact_out_walk(resolved, pool, amount_out_left, totals, swap_for_y, support_limit_order, fee_on_input)
            == exact_out_walk(bins, pool, amount_out_left, totals, swap_for_y, support_limit_order, fee_on_input),
    decreases bins_ahead(bins, pool.active_id, swap_for_y),
{
    lemma_resolved_ids(bins, resolved, bin_step);
    assert(past_supplied_bins(resolved, pool.active_id, swap_for_y) == past_supplied_bins(bins, pool.active_id, swap_for_y));
    assert(bins_ahead(resolved, pool.active_id, swap_for_y) == bins_ahead(bins, pool.active_id, swap_for_y));
    lemma_exact_out_step_resolved(bins, resolved, pool, amount_out_left, totals, swap_for_y, support_limit_order, fee_on_input);
    if amount_out_left > 0 {
        lemma_exact_out_bin_step_keeps(bins, pool, amount_out_left, totals, swap_for_y, support_limit_order, fee_on_input);
        if let Ok((stepped, left, next_totals)) = exact_out_bin_step(
            bins,
            pool,
            amount_out_left,
            totals,
            swap_for_y,
            support_limit_order,
            fee_on_input,
        ) {
            assert(past_supplied_bins(resolved, stepped.active_id, swap_for_y) == past_supplied_bins(bins, stepped.active_id, swap_for_y));
            if left > 0 && !past_supplied_bins(bins, stepped.active_id, swap_for_y) {
                let (advanced, outcome) = advance_active_bin_result(stepped, swap_for_y);
                if outcome is Ok {
                    reveal(exact_out_bin_step);
                    lemma_exact_out_walk_resolved(
                        bins,
                        resolved,
                        bin_step,
                        advanced,
                        left,
                        next_totals,
                        swap_for_y,
                        support_limit_order,
                        fee_on_input,
                    );
                }
            }
        }
    }
}

/// An exact-out swap resolves a bin's stored price of 0 from its id and the
/// pool's bin step before quoting it: supplying the bins with their prices
/// already resolved gives the same swap.
pub proof fn law_exact_out_resolves_unpriced_bins(
    pool: PoolView,
    bins: Seq<BinView>,
    resolved: Seq<BinView>,
    amount_out: u64,
    swap_for_y: bool,
    current_timestamp: i64,
)
    requires
        bins_sorted(bins),
        prices_resolved(bins, resolved, pool.bin_step),
    ensures
        exact_out_swap_result(pool, resolved, amount_out, swap_for_y, current_timestamp)
            == exact_out_swap_result(pool, bins, amount_out, swap_for_y, current_timestamp),
{
    let referenced = update_references_result(pool, current_timestamp).0;
    lemma_exact_out_walk_resolved(
        bins,
        resolved,
        pool.bin_step,
        referenced,
        amount_out,
        (0, 0, 0),
        swap_for_y,
        supports_limit_order(referenced),
        fee_charged_on_input(referenced, swap_for_y),
    );
}

/// What a swap step inside one bin consumes. When the step takes less input
/// than it was offered, it has paid out the bin's whole output liquidity
/// (its output plus, when the fee is taken from the output, that fee).
/// When the fee is charged on the output, the step takes at most what it
/// was offered, and exactly the input that the bin's layers absorb when
/// filled with the offered input: a bin that cannot absorb all of it is
/// charged only for what it fills, and its gross output is what the fill
/// produced.
pub proof fn law_exact_in_step_consumes_filled_input(
    bin: BinView,
    pool: PoolView,
    in_amount: u64,
    swap_for_y: bool,
    support_limit_order: bool,
    fee_on_input: bool,
)
    ensures
        exact_in_at_bin_result(bin, pool, in_amount, swap_for_y, support_limit_order, fee_on_input) matches Ok(quote)
            ==> (quote.amount_in < in_amount ==> quote.amount_out + (if fee_on_input { 0 } else { quote.fee })
                == max_amount_out_with_limit_orders(bin, swap_for_y, support_limit_order)),
        !fee_on_input ==> (exact_in_at_bin_result(bin, pool, in_amount, swap_for_y, support_limit_order, fee_on_input) matches Ok(quote)
            ==> quote.amount_in <= in_amount
                && (bin_fill(bin, in_amount, swap_for_y, support_limit_order) matches Ok((filled, left, out, mm_filled))
                    ==> quote.amount_in == filled && quote.amount_out + quote.fee == out)),
{
    reveal(exact_in_at_bin_result);
    lemma_fees_within_amount(pool, in_amount);
    let fee0: u64 = if fee_on_input {
        match compute_fee_from_amount_result(pool, in_amount) {
            Ok(f) => f,
            Err(_) => 0,
        }
    } else {
        0
    };
    let excluded_in = (in_amount - fee0) as u64;
    lemma_bin_fill_properties(bin, excluded_in, swap_for_y, support_limit_order);
    if let Ok((filled_in, left, out, mm_in)) = bin_fill(bin, excluded_in, swap_for_y, support_limit_order) {
        lemma_fees_within_amount(pool, out);
    }
}

/// Output liquidity of the supplied bins with id exactly `active_id`.
pub open spec fn liquidity_at(bins: Seq<BinView>, active_id: int, swap_for_y: bool, support_limit_order: bool) -> int
    decreases bins.len(),
{
    if bins.len() == 0 {
        0
    } else {
        liquidity_at(bins.drop_last(), active_id, swap_for_y, support_limit_order) + if bins.last().bin_id == active_id {
            max_amount_out_with_limit_orders(bins.last(), swap_for_y, support_limit_order) as int
        } else {
            0
        }
    }
}

/// The liquidity in reach of `active_id` is that at `active_id` plus that in
/// reach of the next id.
proof fn lemma_liquidity_in_reach_splits(bins: Seq<BinView>, active_id: int, swap_for_y: bool, support_limit_order: bool)
    ensures
        liquidity_in_reach(bins, active_id, swap_for_y, support_limit_order)
            == liquidity_at(bins, active_id, swap_for_y, support_limit_order)
            + liquidity_in_reach(bins, next_id(active_id, swap_for_y), swap_for_y, support_limit_order),
    decreases bins.len(),
{
    if bins.len() > 0 {
        lemma_liquidity_in_reach_splits(bins.drop_last(), active_id, swap_for_y, support_limit_order);
    }
}

/// Among sorted bins, the liquidity at an id is that of the supplied bin
/// with that id, or 0 when none has it.
proof fn lemma_liquidity_at_sorted(bins: Seq<BinView>, active_id: i32, swap_for_y: bool, support_limit_order: bool)
    requires
        bins_sorted(bins),
    ensures
        liquidity_at(bins, active_id as int, swap_for_y, support_limit_order) == (match bin_with_id(bins, active_id) {
            Some(bin) => max_amount_out_with_limit_orders(bin, swap_for_y, support_limit_order) as int,
            None => 0,
        }),
    decreases bins.len(),
{
    if bins.len() > 0 {
        let rest = bins.drop_last();
        let last = bins.len() - 1;
        assert(bins_sorted(rest)) by {
            assert forall|i: int, j: int| 0 <= i < j < rest.len() implies rest[i].bin_id < rest[j].bin_id by {
                assert(rest[i] == bins[i] && rest[j] == bins[j]);
            }
        }
        lemma_liquidity_at_sorted(rest, active_id, swap_for_y, support_limit_order);
        if bins[last].bin_id == active_id {
            assert forall|i: int| 0 <= i < rest.len() implies rest[i].bin_id != active_id by {
                assert(rest[i] == bins[i]);
            }
            let i = choose|i: int| 0 <= i < bins.len() && bins[i].bin_id == active_id;
            assert(i == last);
        } else if exists|j: int| 0 <= j < rest.len() && rest[j].bin_id == active_id {
            let j = choose|j: int| 0 <= j < rest.len() && rest[j].bin_id == active_id;
            assert(rest[j] == bins[j]);
            let i = choose|i: int| 0 <= i < bins.len() && bins[i].bin_id == active_id;
            assert(i == j);
        } else {
            assert forall|i: int| 0 <= i < bins.len() implies bins[i].bin_id != active_id by {
                if i < last {
                    assert(rest[i] == bins[i]);
                }
            }
        }
    }
}

/// The input that buys a positive output at a positive price, rounded up,
/// is positive.
proof fn lemma_input_for_output_positive(amount_out: u64, price: u128, swap_for_y: bool)
    requires
        amount_out > 0,
        price > 0,
    ensures
        amount_in_result(amount_out, price, swap_for_y, Rounding::Up) matches Ok(needed) ==> needed >= 1,
{
    vstd::arithmetic::power2::lemma2_to64_rest();
    let scale = vstd::arithmetic::power2::pow2(64) as int;
    let n: int = if swap_for_y { amount_out * scale } else { amount_out * price };
    let d: int = if swap_for_y { price as int } else { scale };
    assert(n >= 1) by (nonlinear_arith)
        requires
            n == (if swap_for_y { amount_out * scale } else { amount_out * price }),
            amount_out >= 1, price >= 1, scale >= 1,
    ;
    if d > 0 {
        lemma_div_is_ordered(d, n + d - 1, d);
        lemma_div_by_self(d);
    }
}

/// No input converts to no output.
proof fn lemma_no_input_no_output(price: u128, swap_for_y: bool)
    ensures
        amount_out_result(0, price, swap_for_y, Rounding::Down) matches Ok(out) ==> out == 0,
{
    assert(price * 0 == 0 && 0 * price == 0);
    vstd::arithmetic::power2::lemma2_to64_rest();
    vstd::arithmetic::power2::lemma_pow2_pos(64);
    assert(0 * vstd::arithmetic::power2::pow2(64) == 0);
}

/// A layer fill that produces output at a positive price takes input.
proof fn lemma_layer_output_takes_input(bin: BinView, amount: u64, max_amount_out: u64, swap_for_y: bool)
    requires
        bin.price > 0,
    ensures
        layer_fill(bin, amount, max_amount_out, swap_for_y) matches Ok((filled, left, out))
            ==> (out > 0 ==> filled >= 1),
{
    reveal(layer_fill);
    if max_amount_out > 0 {
        lemma_input_for_output_positive(max_amount_out, bin.price, swap_for_y);
        lemma_no_input_no_output(bin.price, swap_for_y);
    }
}

/// A bin fill that produces output at a positive price takes input.
proof fn lemma_bin_output_takes_input(bin: BinView, amount: u64, swap_for_y: bool, support_limit_order: bool)
    requires
        bin.price > 0,
    ensures
        bin_fill(bin, amount, swap_for_y, support_limit_order) matches Ok((filled, left, out, mm_filled))
            ==> (out > 0 ==> filled >= 1),
{
    reveal(bin_fill);
    let mm = max_amount_out(bin, swap_for_y);
    lemma_layer_output_takes_input(bin, amount, mm, swap_for_y);
    lemma_layer_fill_properties(bin, amount, mm, swap_for_y);
    if let Ok((mm_in, mm_left, mm_out)) = layer_fill(bin, amount, mm, swap_for_y) {
        let (open_amount, processed_amount) = limit_order_amounts(bin, swap_for_y);
        lemma_layer_output_takes_input(bin, mm_left, processed_amount, swap_for_y);
        lemma_layer_fill_properties(bin, mm_left, processed_amount, swap_for_y);
        if let Ok((p_in, p_left, p_out)) = layer_fill(bin, mm_left, processed_amount, swap_for_y) {
            lemma_layer_output_takes_input(bin, p_left, open_amount, swap_for_y);
            lemma_layer_fill_properties(bin, p_left, open_amount, swap_for_y);
        }
    }
}

/// A swap step inside a bin with output liquidity and a positive price,
/// offered a positive input, consumes a positive input.
proof fn lemma_exact_in_step_takes_input(
    bin: BinView,
    pool: PoolView,
    in_amount: u64,
    swap_for_y: bool,
    support_limit_order: bool,
    fee_on_input: bool,
)
    requires
        bin.price > 0,
        in_amount > 0,
        max_amount_out_with_limit_orders(bin, swap_for_y, support_limit_order) > 0,
    ensures
        exact_in_at_bin_result(bin, pool, in_amount, swap_for_y, support_limit_order, fee_on_input) matches Ok(quote)
            ==> quote.amount_in >= 1,
{
    reveal(exact_in_at_bin_result);
    lemma_fees_within_amount(pool, in_amount);
    let fee0: u64 = if fee_on_input {
        match compute_fee_from_amount_result(pool, in_amount) {
            Ok(f) => f,
            Err(_) => 0,
        }
    } else {
        0
    };
    let excluded_in = (in_amount - fee0) as u64;
    lemma_bin_fill_properties(bin, excluded_in, swap_for_y, support_limit_order);
    lemma_bin_output_takes_input(bin, excluded_in, swap_for_y, support_limit_order);
}

/// One bin step of an exact-in swap only adds to the totals, and when it
/// leaves input over it has paid out the whole liquidity at the active id
/// (counting the fee when that is taken from the output).
proof fn lemma_exact_in_bin_step_drains(
    bins: Seq<BinView>,
    pool: PoolView,
    amount_left: u64,
    totals: SwapTotals,
    swap_for_y: bool,
    support_limit_order: bool,
    fee_on_input: bool,
)
    requires
        bins_sorted(bins),
        forall|i: int| 0 <= i < bins.len() ==> #[trigger] bins[i].price > 0,
        amount_left > 0,
    ensures
        exact_in_bin_step(bins, pool, amount_left, totals, swap_for_y, support_limit_order, fee_on_input)
            matches Ok((stepped, left, next_totals))
            ==> next_totals.0 >= totals.0 && next_totals.1 >= totals.1
                && (left > 0 ==> (next_totals.0 - totals.0) + (if fee_on_input { 0 } else { next_totals.1 - totals.1 })
                    >= liquidity_at(bins, pool.active_id as int, swap_for_y, support_limit_order)),
{
    reveal(exact_in_bin_step);
    lemma_liquidity_at_sorted(bins, pool.active_id, swap_for_y, support_limit_order);
    if let Some(bin) = bin_with_id(bins, pool.active_id) {
        let k = choose|i: int| 0 <= i < bins.len() && bins[i].bin_id == pool.active_id;
        assert(bins[k] == bin);
        assert(bin.price > 0);
        if max_amount_out_with_limit_orders(bin, swap_for_y, support_limit_order) > 0 {
            let updated = with_volatility_accumulator(pool, next_volatility_accumulator(pool));
            lemma_exact_in_step_takes_input(bin, updated, amount_left, swap_for_y, support_limit_order, fee_on_input);
            law_exact_in_step_consumes_filled_input(bin, updated, amount_left, swap_for_y, support_limit_order, fee_on_input);
        }
    }
}

/// The rest of an exact-in walk pays out, from where it starts to where it
/// stops, at least the liquidity of every id it walks past.
proof fn lemma_exact_in_walk_drains(
    bins: Seq<BinView>,
    pool: PoolView,
    amount_left: u64,
    totals: SwapTotals,
    swap_for_y: bool,
    support_limit_order: bool,
    fee_on_input: bool,
)
    requires
        bins_sorted(bins),
        forall|i: int| 0 <= i < bins.len() ==> #[trigger] bins[i].price > 0,
    ensures
        exact_in_walk(bins, pool, amount_left, totals, swap_for_y, support_limit_order, fee_on_input)
            matches Ok((after, final_totals))
            ==> final_totals.0 >= totals.0 && final_totals.1 >= totals.1
                && (final_totals.0 - totals.0) + (if fee_on_input { 0 } else { final_totals.1 - totals.1 })
                    >= liquidity_in_reach(bins, pool.active_id as int, swap_for_y, support_limit_order)
                    - liquidity_in_reach(bins, after.active_id as int, swap_for_y, support_limit_order),
    decreases bins_ahead(bins, pool.active_id, swap_for_y),
{
    if amount_left > 0 {
        lemma_exact_in_bin_step_bounded(bins, pool, amount_left, totals, swap_for_y, support_limit_order, fee_on_input);
        lemma_exact_in_bin_step_drains(bins, pool, amount_left, totals, swap_for_y, support_limit_order, fee_on_input);
        lemma_liquidity_in_reach_splits(bins, pool.active_id as int, swap_for_y, support_limit_order);
        if let Ok((stepped, left, next_totals)) = exact_in_bin_step(
            bins,
            pool,
            amount_left,
            totals,
            swap_for_y,
            support_limit_order,
            fee_on_input,
        ) {
            if left > 0 && !past_supplied_bins(bins, stepped.active_id, swap_for_y) {
                let (advanced, outcome) = advance_active_bin_result(stepped, swap_for_y);
                if outcome is Ok {
                    lemma_exact_in_walk_drains(bins, advanced, left, next_totals, swap_for_y, support_limit_order, fee_on_input);
                }
            }
        }
    }
}

/// An exact-in swap walks past a bin only after paying out all of its
/// output liquidity, limit orders included: from the pool's active bin to
/// where the swap stops, its output (plus the fee, when the fee is taken
/// from the output) covers the liquidity of every supplied bin it walked
/// past. Bins must carry a stored price.
pub proof fn law_exact_in_drains_bins_it_passes(pool: PoolView, bins: Seq<BinView>, amount_in: u64, swap_for_y: bool, current_timestamp: i64)
    requires
        bins_sorted(bins),
        forall|i: int| 0 <= i < bins.len() ==> #[trigger] bins[i].price > 0,
    ensures
        exact_in_swap_result(pool, bins, amount_in, swap_for_y, current_timestamp) matches Ok(quote)
            ==> quote.amount_out + (if fee_charged_on_input(pool, swap_for_y) { 0 } else { quote.fee })
                >= liquidity_in_reach(bins, pool.active_id as int, swap_for_y, supports_limit_order(pool))
                - liquidity_in_reach(bins, quote.pool_after.active_id as int, swap_for_y, supports_limit_order(pool)),
{
    let referenced = update_references_result(pool, current_timestamp).0;
    lemma_exact_in_walk_drains(
        bins,
        referenced,
        amount_in,
        (0, 0, 0),
        swap_for_y,
        supports_limit_order(referenced),
        fee_charged_on_input(referenced, swap_for_y),
    );
}

/// Filling a layer fails only on arithmetic overflow.
proof fn lemma_layer_fill_errors(bin: BinView, amount: u64, max_amount_out: u64, swap_for_y: bool)
    ensures
        layer_fill(bin, amount, max_amount_out, swap_for_y) matches Err(e) ==> e == ErrorCode::MathOverflow,
{
    reveal(layer_fill);
}

/// Fee computations fail only on arithmetic overflow.
proof fn lemma_fee_errors(pool: PoolView, amount: u64)
    ensures
        crate::dynamic_fee::compute_fee_result(pool, amount) matches Err(e) ==> e == ErrorCode::MathOverflow,
        compute_fee_from_amount_result(pool, amount) matches Err(e) ==> e == ErrorCode::MathOverflow,
{
}

/// Filling a bin fails only on arithmetic overflow.
proof fn lemma_bin_fill_errors(bin: BinView, amount: u64, swap_for_y: bool, support_limit_order: bool)
    ensures
        bin_fill(bin, amount, swap_for_y, support_limit_order) matches Err(e) ==> e == ErrorCode::MathOverflow,
{
    reveal(bin_fill);
    let mm = max_amount_out(bin, swap_for_y);
    lemma_layer_fill_errors(bin, amount, mm, swap_for_y);
    if let Ok((mm_in, mm_left, mm_out)) = layer_fill(bin, amount, mm, swap_for_y) {
        let (open_amount, processed_amount) = limit_order_amounts(bin, swap_for_y);
        lemma_layer_fill_errors(bin, mm_left, processed_amount, swap_for_y);
        if let Ok((p_in, p_left, p_out)) = layer_fill(bin, mm_left, processed_amount, swap_for_y) {
            lemma_layer_fill_errors(bin, p_left, open_amount, swap_for_y);
        }
    }
}

/// A swap step inside one bin fails only on arithmetic overflow.
proof fn lemma_exact_in_step_errors(
    bin: BinView,
    pool: PoolView,
    in_amount: u64,
    swap_for_y: bool,
    support_limit_order: bool,
    fee_on_input: bool,
)
    ensures
        exact_in_at_bin_result(bin, pool, in_amount, swap_for_y, support_limit_order, fee_on_input) matches Err(e)
            ==> e == ErrorCode::MathOverflow,
{
    reveal(exact_in_at_bin_result);
    reveal(split_fee_result);
    lemma_fee_errors(pool, in_amount);
    let fee0: u64 = if fee_on_input {
        match compute_fee_from_amount_result(pool, in_amount) {
            Ok(f) => f,
            Err(_) => 0,
        }
    } else {
        0
    };
    let excluded_in = (in_amount - fee0) as u64;
    lemma_bin_fill_errors(bin, excluded_in, swap_for_y, support_limit_order);
    if let Ok((filled_in, left, out, mm_in)) = bin_fill(bin, excluded_in, swap_for_y, support_limit_order) {
        lemma_fee_errors(pool, out);
        lemma_fee_errors(pool, (excluded_in - left) as u64);
    }
}

/// The input needed for an output fails only on arithmetic overflow.
proof fn lemma_excluded_input_errors(bin: BinView, swap_for_y: bool, included_fee_amount_out: u64)
    ensures
        crate::swap_full::excluded_fee_amount_in_result(bin, swap_for_y, included_fee_amount_out) matches Err(e)
            ==> e == ErrorCode::MathOverflow,
{
    reveal(crate::swap_full::excluded_fee_amount_in_result);
    assert forall|amount: u64| (#[trigger] amount_in_result(amount, bin.price, swap_for_y, Rounding::Up)) is Err
        implies amount_in_result(amount, bin.price, swap_for_y, Rounding::Up)->Err_0 == ErrorCode::MathOverflow by {
    }
}

/// A swap step inside one bin producing an exact output fails only on
/// arithmetic overflow.
proof fn lemma_exact_out_step_errors(
    bin: BinView,
    pool: PoolView,
    out_amount: u64,
    swap_for_y: bool,
    support_limit_order: bool,
    fee_on_input: bool,
)
    ensures
        exact_out_at_bin_result(bin, pool, out_amount, swap_for_y, support_limit_order, fee_on_input) matches Err(e)
            ==> e == ErrorCode::MathOverflow,
{
    reveal(exact_out_at_bin_result);
    lemma_fee_errors(pool, out_amount);
    lemma_exact_in_step_errors(bin, pool, u64::MAX, swap_for_y, support_limit_order, fee_on_input);
    let included_out: Result<u64, ErrorCode> = if fee_on_input {
        Ok(out_amount)
    } else {
        match crate::dynamic_fee::compute_fee_result(pool, out_amount) {
            Err(e) => Err(e),
            Ok(fee) => if out_amount + fee > u64::MAX { Err(ErrorCode::MathOverflow) } else { Ok((out_amount + fee) as u64) },
        }
    };
    if let Ok(included) = included_out {
        lemma_excluded_input_errors(bin, swap_for_y, included);
        if let Ok(excluded_in) = crate::swap_full::excluded_fee_amount_in_result(bin, swap_for_y, included) {
            lemma_fee_errors(pool, excluded_in);
            lemma_exact_in_step_errors(bin, pool, excluded_in, swap_for_y, support_limit_order, fee_on_input);
            if let Ok(fee) = crate::dynamic_fee::compute_fee_result(pool, excluded_in) {
                if excluded_in + fee <= u64::MAX {
                    lemma_exact_in_step_errors(bin, pool, (excluded_in + fee) as u64, swap_for_y, support_limit_order, fee_on_input);
                }
            }
        }
    }
}

/// Exact-out swaps are served by the active bin when it holds more than the
/// requested output, limit orders included, and the fee is charged on the
/// input: such a swap never leaves the active bin, and can fail only on
/// arithmetic overflow, never for want of liquidity.
pub proof fn law_exact_out_served_by_active_bin(
    pool: PoolView,
    bins: Seq<BinView>,
    bin: BinView,
    amount_out: u64,
    swap_for_y: bool,
    current_timestamp: i64,
)
    requires
        bin_with_id(bins, pool.active_id) == Some(bin),
        amount_out < max_amount_out_with_limit_orders(bin, swap_for_y, supports_limit_order(pool)),
        fee_charged_on_input(pool, swap_for_y),
    ensures
        exact_out_swap_result(pool, bins, amount_out, swap_for_y, current_timestamp) matches Ok(quote)
            ==> quote.pool_after.active_id == pool.active_id,
        exact_out_swap_result(pool, bins, amount_out, swap_for_y, current_timestamp) matches Err(e)
            ==> e == ErrorCode::MathOverflow,
{
    let referenced = update_references_result(pool, current_timestamp).0;
    let slo = supports_limit_order(referenced);
    let foi = fee_charged_on_input(referenced, swap_for_y);
    reveal(exact_out_bin_step);
    if amount_out > 0 {
        let resolved = stored_price_result(bin, referenced.bin_step).0;
        let updated = with_volatility_accumulator(referenced, next_volatility_accumulator(referenced));
        assert(max_amount_out_with_limit_orders(resolved, swap_for_y, slo) == max_amount_out_with_limit_orders(bin, swap_for_y, slo));
        lemma_exact_out_step_errors(resolved, updated, amount_out, swap_for_y, slo, foi);
        reveal(exact_out_at_bin_result);
    }
}

/// Buying nothing needs no input.
proof fn lemma_no_output_needs_no_input(price: u128, swap_for_y: bool)
    ensures
        amount_in_result(0, price, swap_for_y, Rounding::Up) matches Ok(needed) ==> needed == 0,
{
    vstd::arithmetic::power2::lemma2_to64_rest();
    let scale = vstd::arithmetic::power2::pow2(64) as int;
    assert(0 * scale == 0 && 0 * price == 0 && price * 0 == 0);
    if swap_for_y {
        if price > 0 {
            assert((price - 1) as int / (price as int) == 0) by {
                lemma_basic_div(price - 1, price as int);
            }
        }
    } else {
        lemma_basic_div(scale - 1, scale);
    }
}

/// Filling one layer of `max_amount_out` with the input that buys `target`
/// of it (rounded up), plus `extra` that only comes when the target is the
/// whole layer, pays out at least `target`, and hands the `extra` on when
/// the layer is drained.
proof fn lemma_layer_buys_target(bin: BinView, target: u64, max_amount_out: u64, extra: u64, swap_for_y: bool)
    requires
        target <= max_amount_out,
        target < max_amount_out ==> extra == 0,
        amount_in_result(target, bin.price, swap_for_y, Rounding::Up) matches Ok(needed) && needed + extra <= u64::MAX,
    ensures
        amount_in_result(target, bin.price, swap_for_y, Rounding::Up) matches Ok(needed)
            ==> (layer_fill(bin, (needed + extra) as u64, max_amount_out, swap_for_y) matches Ok((filled, left, out))
                ==> out >= target && (target == max_amount_out ==> left == extra)),
{
    reveal(layer_fill);
    lemma_no_output_needs_no_input(bin.price, swap_for_y);
    crate::swap_math::law_required_input_delivers_output(target, bin.price, swap_for_y);
}

/// The input an exact-out step computes for an output (before fees, each
/// layer rounded up) buys that output: filling the bin's layers with it
/// pays out at least the requested output, whenever the output is within
/// the bin's liquidity and the bin has a positive price.
pub proof fn law_excluded_input_buys_output(bin: BinView, swap_for_y: bool, support_limit_order: bool, amount_out: u64)
    requires
        bin.price > 0,
        amount_out <= max_amount_out_with_limit_orders(bin, swap_for_y, support_limit_order),
    ensures
        crate::swap_full::excluded_fee_amount_in_result(bin, swap_for_y, amount_out) matches Ok(needed)
            ==> (bin_fill(bin, needed, swap_for_y, support_limit_order) matches Ok((filled, left, out, mm_filled))
                ==> out >= amount_out),
{
    reveal(crate::swap_full::excluded_fee_amount_in_result);
    reveal(bin_fill);
    let (open_amount, processed_amount) = limit_order_amounts(bin, swap_for_y);
    let mm = max_amount_out(bin, swap_for_y);
    let out1 = crate::swap_full::min_amount(amount_out, mm);
    if let Ok(in1) = amount_in_result(out1, bin.price, swap_for_y, Rounding::Up) {
        let rem1 = (amount_out - out1) as u64;
        if rem1 == 0 {
            lemma_layer_buys_target(bin, out1, mm, 0, swap_for_y);
        } else {
            let out2 = crate::swap_full::min_amount(rem1, processed_amount);
            if let Ok(in2) = amount_in_result(out2, bin.price, swap_for_y, Rounding::Up) {
                let rem2 = (rem1 - out2) as u64;
                if in1 + in2 <= u64::MAX {
                    if rem2 == 0 {
                        if out2 > 0 {
                            lemma_input_for_output_positive(out2, bin.price, swap_for_y);
                        }
                        lemma_layer_buys_target(bin, out1, mm, in2, swap_for_y);
                        lemma_layer_buys_target(bin, out2, processed_amount, 0, swap_for_y);
                    } else {
                        let out3 = crate::swap_full::min_amount(rem2, open_amount);
                        if let Ok(in3) = amount_in_result(out3, bin.price, swap_for_y, Rounding::Up) {
                            if in1 + in2 + in3 <= u64::MAX {
                                lemma_input_for_output_positive(out3, bin.price, swap_for_y);
                                lemma_layer_buys_target(bin, out1, mm, (in2 + in3) as u64, swap_for_y);
                                lemma_layer_buys_target(bin, out2, processed_amount, in3, swap_for_y);
                                lemma_layer_buys_target(bin, out3, open_amount, 0, swap_for_y);
                            }
                        }
                    }
                }
            }
        }
    }
}

} // verus!
