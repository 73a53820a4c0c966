use solana_dlmm_meteora::{
    compute_swap_full, compute_swap_full_exact_out, get_price_from_id, swap_exact_in_quote_at_bin,
    swap_exact_out_quote_at_bin, BinQuoteResult, BinView, ErrorCode, PoolView, StaticParameters,
    VariableParameters, MAX_BIN_ID, MIN_BIN_ID,
};

fn pool(active_id: i32, bin_step: u16) -> PoolView {
    PoolView {
        active_id,
        bin_step,
        has_rewards: false,
        parameters: StaticParameters {
            base_factor: 10_000,
            filter_period: 30,
            decay_period: 600,
            reduction_factor: 5_000,
            variable_fee_control: 40_000,
            max_volatility_accumulator: 350_000,
            min_bin_id: -443_636,
            max_bin_id: 443_636,
            protocol_share: 500,
            base_fee_power_factor: 0,
            function_type: 1,
            collect_fee_mode: 0,
        },
        v_parameters: VariableParameters {
            volatility_accumulator: 0,
            volatility_reference: 0,
            index_reference: active_id,
            last_update_timestamp: 0,
        },
    }
}

fn bin(bin_id: i32, amount_x: u64, amount_y: u64) -> BinView {
    BinView { bin_id, amount_x, amount_y, price: get_price_from_id(bin_id, 25).unwrap(), ..BinView::default() }
}

fn five_bins() -> Vec<BinView> {
    vec![
        bin(98, 0, 1_000_000),
        bin(99, 0, 1_000_000),
        bin(100, 500_000, 1_000_000),
        bin(101, 1_000_000, 0),
        bin(102, 1_000_000, 0),
    ]
}

#[test]
fn exact_in_step_inside_one_bin() {
    let p = pool(100, 25);
    let b = bin(100, 500_000, 1_000_000);
    let partial = BinQuoteResult { amount_in: 100_000, amount_out: 128_041, fee: 250, protocol_fee: 12 };
    assert_eq!(swap_exact_in_quote_at_bin(&b, &p, 100_000, true, false, true), Ok(partial));
    let drained = BinQuoteResult { amount_in: 780_997, amount_out: 1_000_000, fee: 1_953, protocol_fee: 97 };
    assert_eq!(swap_exact_in_quote_at_bin(&b, &p, 2_000_000, true, false, true), Ok(drained));
    let on_output = BinQuoteResult { amount_in: 100_000, amount_out: 128_041, fee: 321, protocol_fee: 16 };
    assert_eq!(swap_exact_in_quote_at_bin(&b, &p, 100_000, true, false, false), Ok(on_output));
    let reversed = BinQuoteResult { amount_in: 100_000, amount_out: 77_709, fee: 250, protocol_fee: 12 };
    assert_eq!(swap_exact_in_quote_at_bin(&b, &p, 100_000, false, false, true), Ok(reversed));
}

#[test]
fn exact_out_step_inside_one_bin() {
    let p = pool(100, 25);
    let b = bin(100, 500_000, 1_000_000);
    let partial = BinQuoteResult { amount_in: 78_101, amount_out: 100_000, fee: 196, protocol_fee: 9 };
    assert_eq!(swap_exact_out_quote_at_bin(&b, &p, 100_000, true, false, true), Ok(partial));
    let drained = BinQuoteResult { amount_in: 780_997, amount_out: 1_000_000, fee: 1_953, protocol_fee: 97 };
    assert_eq!(swap_exact_out_quote_at_bin(&b, &p, 5_000_000, true, false, true), Ok(drained));
}

#[test]
fn limit_order_layers_fill_after_market_maker() {
    let mut p = pool(100, 25);
    p.parameters.function_type = 2;
    let b = BinView {
        limit_order_ask_side: 0,
        open_order_amount: 200_000,
        processed_order_remaining_amount: 50_000,
        ..bin(100, 0, 100_000)
    };
    let expected = BinQuoteResult { amount_in: 200_000, amount_out: 256_081, fee: 500, protocol_fee: 161 };
    assert_eq!(swap_exact_in_quote_at_bin(&b, &p, 200_000, true, true, true), Ok(expected));
    let quote = compute_swap_full(&p, &[b], 200_000, true, 1_000).unwrap();
    assert_eq!((quote.amount_out, quote.fee, quote.protocol_fee), (256_081, 500, 161));
}

#[test]
fn single_bin_exact_in() {
    let p = pool(100, 25);
    let quote = compute_swap_full(&p, &five_bins(), 100_000, true, 1_000).unwrap();
    assert_eq!((quote.amount_out, quote.fee, quote.protocol_fee), (128_041, 250, 12));
    assert_eq!(quote.pool_after.active_id, 100);
    assert_eq!(quote.pool_after.v_parameters.volatility_accumulator, 0);
    assert_eq!(quote.pool_after.v_parameters.index_reference, 100);
    assert_eq!(quote.pool_after.v_parameters.last_update_timestamp, 1_000);
}

#[test]
fn crossing_bins_both_directions() {
    let p = pool(100, 25);
    let down = compute_swap_full(&p, &five_bins(), 1_500_000, true, 1_000).unwrap();
    assert_eq!((down.amount_out, down.fee, down.protocol_fee), (1_918_303, 3_769, 187));
    assert_eq!(down.pool_after.active_id, 99);
    assert_eq!(down.pool_after.v_parameters.volatility_accumulator, 10_000);
    let up = compute_swap_full(&p, &five_bins(), 2_500_000, false, 1_000).unwrap();
    assert_eq!((up.amount_out, up.fee, up.protocol_fee), (1_937_977, 6_340, 315));
    assert_eq!(up.pool_after.active_id, 102);
    assert_eq!(up.pool_after.v_parameters.volatility_accumulator, 20_000);
}

#[test]
fn fee_on_output_mode() {
    let mut p = pool(100, 25);
    p.parameters.collect_fee_mode = 1;
    let quote = compute_swap_full(&p, &five_bins(), 100_000, true, 1_000).unwrap();
    assert_eq!((quote.amount_out, quote.fee, quote.protocol_fee), (128_041, 321, 16));
}

#[test]
fn warm_pool_decays_reference() {
    let mut p = pool(100, 25);
    p.v_parameters.volatility_accumulator = 20_000;
    p.v_parameters.last_update_timestamp = 900;
    let quote = compute_swap_full(&p, &five_bins(), 1_500_000, true, 1_000).unwrap();
    assert_eq!((quote.amount_out, quote.fee, quote.protocol_fee), (1_918_208, 3_843, 191));
    assert_eq!(quote.pool_after.v_parameters.volatility_reference, 10_000);
    assert_eq!(quote.pool_after.v_parameters.volatility_accumulator, 20_000);
}

#[test]
fn out_of_liquidity_errors() {
    let p = pool(100, 25);
    assert_eq!(compute_swap_full(&p, &five_bins(), 10_000_000, true, 1_000), Err(ErrorCode::PoolOutOfLiquidity));
    assert_eq!(compute_swap_full(&p, &[], 1, true, 1_000), Err(ErrorCode::PoolOutOfLiquidity));
    assert_eq!(compute_swap_full_exact_out(&p, &[], 1, false, 1_000), Err(ErrorCode::PoolOutOfLiquidity));
    let zero = compute_swap_full(&p, &[], 0, true, 1_000).unwrap();
    assert_eq!((zero.amount_out, zero.fee, zero.protocol_fee), (0, 0, 0));
}

#[test]
fn timestamp_out_of_range_errors() {
    let mut p = pool(100, 25);
    p.v_parameters.last_update_timestamp = i64::MIN;
    assert_eq!(compute_swap_full(&p, &five_bins(), 1, true, i64::MAX), Err(ErrorCode::MathOverflow));
    assert_eq!(compute_swap_full_exact_out(&p, &five_bins(), 1, true, i64::MAX), Err(ErrorCode::MathOverflow));
}

#[test]
fn gap_bin_equals_empty_bin() {
    let p = pool(100, 25);
    let absent = vec![bin(98, 0, 1_000_000), bin(100, 500_000, 1_000_000)];
    let empty = vec![bin(98, 0, 1_000_000), bin(99, 0, 0), bin(100, 500_000, 1_000_000)];
    let a = compute_swap_full(&p, &absent, 1_500_000, true, 1_000).unwrap();
    let e = compute_swap_full(&p, &empty, 1_500_000, true, 1_000).unwrap();
    assert_eq!(a, e);
    assert_eq!((a.amount_out, a.fee, a.protocol_fee), (1_915_944, 3_823, 190));
    assert_eq!(a.pool_after.active_id, 98);
    let a_out = compute_swap_full_exact_out(&p, &absent, 1_500_000, true, 1_000).unwrap();
    let e_out = compute_swap_full_exact_out(&p, &empty, 1_500_000, true, 1_000).unwrap();
    assert_eq!(a_out, e_out);
}

#[test]
fn exact_out_across_bins() {
    let p = pool(100, 25);
    let quote = compute_swap_full_exact_out(&p, &five_bins(), 1_500_000, true, 1_000).unwrap();
    assert_eq!((quote.amount_in, quote.fee, quote.protocol_fee), (1_172_482, 2_942, 146));
    assert_eq!(quote.pool_after.active_id, 99);
    assert_eq!(quote.pool_after.v_parameters.volatility_accumulator, 10_000);
    assert_eq!(quote.pool_after.v_parameters.last_update_timestamp, 1_000);
}

#[test]
fn exact_out_resolves_missing_price() {
    let p = pool(100, 25);
    let lazy = vec![BinView { bin_id: 100, amount_y: 1_000_000, price: 0, ..BinView::default() }];
    let quote = compute_swap_full_exact_out(&p, &lazy, 1_000, true, 1_000).unwrap();
    assert_eq!((quote.amount_in, quote.fee, quote.protocol_fee), (782, 2, 0));
}

#[test]
fn exact_in_then_exact_out_round_trip() {
    let p = pool(100, 25);
    let forward = compute_swap_full(&p, &five_bins(), 1_500_000, true, 1_000).unwrap();
    let back = compute_swap_full_exact_out(&p, &five_bins(), forward.amount_out, true, 1_000).unwrap();
    assert_eq!(back.amount_in, 1_500_000);
    assert_eq!((back.fee, back.protocol_fee), (3_769, 187));
}

#[test]
fn walk_reaches_the_last_supplied_bin_at_the_id_bounds() {
    let mut low = pool(MIN_BIN_ID, 25);
    low.parameters.min_bin_id = MIN_BIN_ID;
    let at_min = vec![BinView { bin_id: MIN_BIN_ID, amount_y: 10, price: 1 << 64, ..BinView::default() }];
    assert_eq!(compute_swap_full(&low, &at_min, 1_000_000, true, 1_000), Err(ErrorCode::InsufficientLiquidity));
    let high = pool(MAX_BIN_ID, 25);
    let at_max = vec![BinView { bin_id: MAX_BIN_ID, amount_x: 10, price: 1 << 64, ..BinView::default() }];
    assert_eq!(compute_swap_full(&high, &at_max, 1_000_000, false, 1_000), Err(ErrorCode::InsufficientLiquidity));
    assert_eq!(compute_swap_full_exact_out(&high, &at_max, 1_000, false, 1_000), Err(ErrorCode::InsufficientLiquidity));
    let inside = vec![bin(100, 0, 10)];
    assert_eq!(compute_swap_full(&pool(100, 25), &inside, 1_000_000, true, 1_000), Err(ErrorCode::PoolOutOfLiquidity));
}

#[test]
fn bin_empty_in_swap_direction_equals_absent_bin() {
    let p = pool(100, 25);
    let absent = vec![bin(98, 0, 1_000_000), bin(100, 500_000, 1_000_000)];
    let one_sided = vec![bin(98, 0, 1_000_000), bin(99, 7_000_000, 0), bin(100, 500_000, 1_000_000)];
    let a = compute_swap_full(&p, &absent, 1_500_000, true, 1_000).unwrap();
    let o = compute_swap_full(&p, &one_sided, 1_500_000, true, 1_000).unwrap();
    assert_eq!(a, o);
    assert_eq!((o.amount_out, o.fee, o.protocol_fee), (1_915_944, 3_823, 190));
    let a_out = compute_swap_full_exact_out(&p, &absent, 1_500_000, true, 1_000).unwrap();
    let o_out = compute_swap_full_exact_out(&p, &one_sided, 1_500_000, true, 1_000).unwrap();
    assert_eq!(a_out, o_out);
}

#[test]
fn exact_out_never_exceeds_supplied_liquidity() {
    let p = pool(100, 25);
    let held: u64 = five_bins().iter().filter(|b| b.bin_id <= 100).map(|b| b.amount_y).sum();
    assert_eq!(held, 3_000_000);
    assert!(compute_swap_full_exact_out(&p, &five_bins(), held + 1, true, 1_000).is_err());
    assert!(compute_swap_full_exact_out(&p, &five_bins(), u64::MAX, true, 1_000).is_err());
    assert_eq!(compute_swap_full_exact_out(&p, &five_bins(), held + 1, true, 1_000), Err(ErrorCode::PoolOutOfLiquidity));
    assert!(compute_swap_full_exact_out(&p, &five_bins(), 2_900_000, true, 1_000).is_ok());
}

#[test]
fn exact_out_prices_unpriced_bins_from_their_ids() {
    let p = pool(100, 25);
    let lazy: Vec<BinView> = five_bins().into_iter().map(|b| BinView { price: 0, ..b }).collect();
    for amount in [1_000u64, 1_500_000, 2_500_000] {
        assert_eq!(
            compute_swap_full_exact_out(&p, &lazy, amount, true, 1_000),
            compute_swap_full_exact_out(&p, &five_bins(), amount, true, 1_000),
        );
    }
    let lazy_x: Vec<BinView> = five_bins().into_iter().map(|b| BinView { price: 0, ..b }).collect();
    assert_eq!(
        compute_swap_full_exact_out(&p, &lazy_x, 1_200_000, false, 1_000),
        compute_swap_full_exact_out(&p, &five_bins(), 1_200_000, false, 1_000),
    );
}

#[test]
fn swaps_that_charge_no_fee_accept_any_power_factor() {
    let mut p = pool(100, 25);
    p.parameters.base_fee_power_factor = 40;
    assert_eq!(compute_swap_full(&p, &[], 5, true, 1_000), Err(ErrorCode::PoolOutOfLiquidity));
    let above = vec![bin(101, 1_000_000, 0)];
    assert_eq!(compute_swap_full(&p, &above, 5, true, 1_000), Err(ErrorCode::PoolOutOfLiquidity));
    assert_eq!(compute_swap_full_exact_out(&p, &above, 5, true, 1_000), Err(ErrorCode::PoolOutOfLiquidity));
    let zero = compute_swap_full(&p, &five_bins(), 0, true, 1_000).unwrap();
    assert_eq!((zero.amount_out, zero.fee, zero.protocol_fee), (0, 0, 0));
    assert_eq!(zero.pool_after.active_id, 100);
}
