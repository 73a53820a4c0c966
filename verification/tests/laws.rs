use solana_dlmm_meteora::{get_amount_in, get_amount_out, Rounding};
use solana_dlmm_meteora::{
    compute_swap_full, compute_swap_full_exact_out, get_price_from_id, update_references, BinView,
    ErrorCode, PoolView, StaticParameters, VariableParameters,
};

fn pool(active_id: i32, bin_step: u16) -> PoolView {
    PoolView {
        active_id,
        bin_step,
        has_rewards: false,
        parameters: StaticParameters {
            base_factor: 10_000,
            filter_period: 30,
            decay_period: 600,
            reduction_factor: 5_000,
            variable_fee_control: 40_000,
            max_volatility_accumulator: 350_000,
            min_bin_id: -443_636,
            max_bin_id: 443_636,
            protocol_share: 500,
            base_fee_power_factor: 0,
            function_type: 1,
            collect_fee_mode: 0,
        },
        v_parameters: VariableParameters {
            volatility_accumulator: 0,
            volatility_reference: 0,
            index_reference: active_id,
            last_update_timestamp: 0,
        },
    }
}

/// A small deterministic generator for reserve sets.
fn next(seed: &mut u64) -> u64 {
    *seed = seed.wrapping_mul(6364136223846793005).wrapping_add(1442695040888963407);
    *seed >> 33
}

#[test]
fn swap_bounded_by_reserves_and_input() {
    let mut seed = 7u64;
    for _ in 0..300 {
        let n = (next(&mut seed) % 5 + 1) as i32;
        let active_id = 100i32;
        let bins: Vec<BinView> = (0..n)
            .map(|i| {
                let id = active_id - (n - 1) + i;
                BinView {
                    bin_id: id,
                    amount_x: next(&mut seed) % 10_000_000,
                    amount_y: next(&mut seed) % 10_000_000,
                    price: get_price_from_id(id, 100).unwrap(),
                    ..BinView::default()
                }
            })
            .collect();
        let amount_in = next(&mut seed) % 30_000_000 + 1;
        let swap_for_y = next(&mut seed) % 2 == 0;
        let total_out_reserve: u64 = bins.iter().map(|b| if swap_for_y { b.amount_y } else { b.amount_x }).sum();
        let p = pool(active_id, 100);
        match compute_swap_full(&p, &bins, amount_in, swap_for_y, 1_000) {
            Ok(quote) => {
                assert!(quote.amount_out <= total_out_reserve);
                assert!(quote.fee <= amount_in);
                assert!(quote.protocol_fee <= quote.fee);
                let after = quote.pool_after;
                assert!(after.v_parameters.volatility_accumulator <= after.parameters.max_volatility_accumulator);
                assert!(after.active_id >= bins[0].bin_id.min(active_id));
                assert!(after.active_id <= bins[bins.len() - 1].bin_id.max(active_id));
                assert_eq!(after.parameters, p.parameters);
                assert_eq!(after.bin_step, p.bin_step);
            }
            Err(ErrorCode::PoolOutOfLiquidity) => {}
            Err(e) => panic!("unexpected error: {e:?}"),
        }
    }
}

#[test]
fn exact_out_keeps_pool_shape() {
    let p = pool(100, 25);
    let bins: Vec<BinView> = (98..=102)
        .map(|id| BinView {
            bin_id: id,
            amount_x: 1_000_000,
            amount_y: 1_000_000,
            price: get_price_from_id(id, 25).unwrap(),
            ..BinView::default()
        })
        .collect();
    let quote = compute_swap_full_exact_out(&p, &bins, 2_500_000, false, 1_000).unwrap();
    assert_eq!(quote.pool_after.active_id, 102);
    assert_eq!(quote.pool_after.parameters, p.parameters);
    assert!(quote.pool_after.v_parameters.volatility_accumulator <= p.parameters.max_volatility_accumulator);
}

#[test]
fn reference_stays_within_accumulator() {
    let mut p = pool(100, 25);
    p.v_parameters.volatility_accumulator = 80_000;
    p.v_parameters.volatility_reference = 10_000;
    update_references(&mut p, 100).unwrap();
    assert_eq!(p.v_parameters.volatility_reference, 40_000);
    assert!(p.v_parameters.volatility_reference <= p.v_parameters.volatility_accumulator);
}

#[test]
fn variable_fee_grows_with_volatility() {
    let p = pool(100, 25);
    let mut previous = 0u128;
    for accumulator in [0u32, 1, 5_000, 10_000, 100_000, 350_000, u32::MAX] {
        let fee = solana_dlmm_meteora::compute_variable_fee(&p, accumulator).unwrap();
        assert!(previous <= fee);
        previous = fee;
    }
}

#[test]
fn prices_on_each_side_of_one() {
    let one = solana_dlmm_meteora::bin_math::ONE;
    for step in [0u16, 1, 25, 100, u16::MAX] {
        assert_eq!(get_price_from_id(0, step), Ok(one));
        for id in [1i32, 2, 77, 4_000] {
            if let Ok(price) = get_price_from_id(id, step) {
                assert!(price > one);
            }
            if let Ok(price) = get_price_from_id(-id, step) {
                assert!(price < one);
            }
        }
    }
}

#[test]
fn round_trip_never_exceeds_input() {
    for id in [-500i32, -1, 0, 3, 250] {
        let price = get_price_from_id(id, 25).unwrap();
        for amount in [1u64, 2, 999, 1_000_003, 77_777_777_777] {
            for swap_for_y in [true, false] {
                let out = get_amount_out(amount, price, swap_for_y, Rounding::Down).unwrap();
                let back = get_amount_in(out, price, swap_for_y, Rounding::Up).unwrap();
                assert!(back <= amount);
            }
        }
    }
}

#[test]
fn price_never_decreases_even_where_it_saturates() {
    for (low, step) in [(-443_640i32, 1u16), (443_600, 1), (-4_460, 100), (-20, 25)] {
        let mut previous: Option<u128> = None;
        for id in low..low + 60 {
            let price = get_price_from_id(id, step);
            if let (Some(p), Ok(q)) = (previous, price) {
                assert!(p <= q, "price decreased at id={id}, step={step}");
            }
            previous = price.ok();
        }
    }
    assert_eq!(get_price_from_id(-443_635, 1), Ok(1));
    assert_eq!(get_price_from_id(-443_634, 1), Ok(1));
}

#[test]
fn required_input_delivers_output() {
    for id in [-500i32, -1, 0, 3, 250] {
        let price = get_price_from_id(id, 25).unwrap();
        for amount in [1u64, 2, 999, 1_000_003, 77_777_777] {
            for swap_for_y in [true, false] {
                let needed = get_amount_in(amount, price, swap_for_y, Rounding::Up).unwrap();
                let delivered = get_amount_out(needed, price, swap_for_y, Rounding::Down).unwrap();
                assert!(delivered >= amount);
            }
        }
    }
}

#[test]
fn exact_out_fee_within_input() {
    let p = pool(100, 25);
    let bins: Vec<BinView> = (97..=103)
        .map(|id| BinView {
            bin_id: id,
            amount_x: 700_000,
            amount_y: 900_000,
            price: get_price_from_id(id, 25).unwrap(),
            ..BinView::default()
        })
        .collect();
    for amount in [1u64, 10, 12_345, 500_000, 2_000_000] {
        for swap_for_y in [true, false] {
            let quote = compute_swap_full_exact_out(&p, &bins, amount, swap_for_y, 1_000).unwrap();
            assert!(quote.fee <= quote.amount_in);
        }
    }
}
