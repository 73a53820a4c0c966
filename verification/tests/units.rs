use solana_dlmm_meteora::bin_math::{pow, ONE};
use solana_dlmm_meteora::full_math::{safe_mul_div_u64, safe_mul_shr_u64, safe_shl_div_u64};
use solana_dlmm_meteora::u128x128_math::{mul_div, mul_shr, shl_div};
use solana_dlmm_meteora::{
    get_amount_in, get_amount_out, get_limit_order_amounts_by_direction, get_max_amount_in,
    get_max_amount_out, get_max_amount_out_with_limit_orders, get_or_store_bin_price,
    get_price_from_id, BinView, ErrorCode, Rounding, MAX_BIN_ID, MIN_BIN_ID,
};

#[test]
fn price_at_bin_zero_is_one() {
    assert_eq!(get_price_from_id(0, 25), Ok(ONE));
    assert_eq!(get_price_from_id(0, 100), Ok(1u128 << 64));
}

#[test]
fn price_pinned_values() {
    assert_eq!(get_price_from_id(100, 100), Ok(49895008478369174654));
    assert_eq!(get_price_from_id(-100, 100), Ok(6819968115016154424));
    assert_eq!(get_price_from_id(1, 25), Ok(18492860933893825495));
    assert_eq!(get_price_from_id(-1, 25), Ok(18400742218164141262));
    assert_eq!(get_price_from_id(100, 25), Ok(23678699809202413098));
}

#[test]
fn price_saturates_at_bin_bounds() {
    assert_eq!(MAX_BIN_ID, 443_636);
    assert_eq!(MIN_BIN_ID, -443_636);
    assert_eq!(get_price_from_id(MAX_BIN_ID, 1), Ok(u128::MAX));
    assert_eq!(get_price_from_id(MIN_BIN_ID, 1), Ok(1));
}

#[test]
fn price_overflows_beyond_exponent_range() {
    assert_eq!(get_price_from_id(524_288, 1), Err(ErrorCode::MathOverflow));
    assert_eq!(get_price_from_id(-524_288, 1), Err(ErrorCode::MathOverflow));
    assert_eq!(get_price_from_id(i32::MIN, 1), Err(ErrorCode::MathOverflow));
    assert_eq!(pow(ONE, 0), Some(ONE));
    assert_eq!(pow(0, 3), None);
}

#[test]
fn price_monotonic_in_bin_id() {
    for step in 1u16..=100 {
        let mut previous = get_price_from_id(-2_000, step).unwrap();
        for id in -1_999i32..=2_000 {
            let price = get_price_from_id(id, step).unwrap();
            assert!(previous < price, "price not increasing at id={id}, step={step}");
            previous = price;
        }
    }
}

#[test]
fn mul_shr_and_shl_div_round() {
    assert_eq!(safe_mul_shr_u64(ONE + 1, 1, 64, Rounding::Up), Ok(2));
    assert_eq!(safe_mul_shr_u64(ONE + 1, 1, 64, Rounding::Down), Ok(1));
    assert_eq!(safe_shl_div_u64(1, ONE + 1, 64, Rounding::Up), Ok(1));
    assert_eq!(safe_shl_div_u64(1, ONE + 1, 64, Rounding::Down), Ok(0));
    assert_eq!(safe_mul_shr_u64(1, 1, 128, Rounding::Down), Err(ErrorCode::MathOverflow));
    assert_eq!(safe_shl_div_u64(1, 1, 200, Rounding::Down), Err(ErrorCode::MathOverflow));
}

#[test]
fn wide_mul_div_uses_the_full_product() {
    let max = u128::MAX;
    assert_eq!(mul_div(max, max, max, Rounding::Down), Some(max));
    assert_eq!(mul_div(max, max, max, Rounding::Up), Some(max));
    assert_eq!(mul_div(max, max - 1, max, Rounding::Up), Some(max - 1));
    assert_eq!(mul_div(max, max, max - 1, Rounding::Down), None);
    assert_eq!(mul_div(max, 3, 2, Rounding::Down), None);
    assert_eq!(mul_div(max, max, 1, Rounding::Down), None);
    assert_eq!(mul_div(1 << 127, 2, 2, Rounding::Down), Some(1 << 127));
    assert_eq!(mul_div(10, 10, 3, Rounding::Up), Some(34));
    assert_eq!(mul_div(10, 10, 3, Rounding::Down), Some(33));
    assert_eq!(mul_div(10, 10, 0, Rounding::Down), None);
    assert_eq!(mul_div((1 << 96) - 1, (1 << 96) + 1, 1 << 64, Rounding::Down), Some(max));
    assert_eq!(mul_div((1 << 96) - 1, (1 << 96) + 1, 1 << 64, Rounding::Up), None);
}

#[test]
fn wide_mul_shr_and_shl_div() {
    let max = u128::MAX;
    assert_eq!(mul_shr(3, 5, 1, Rounding::Up), Some(8));
    assert_eq!(mul_shr(3, 5, 1, Rounding::Down), Some(7));
    assert_eq!(mul_shr(max, 1 << 64, 64, Rounding::Down), Some(max));
    assert_eq!(mul_shr(max, max, 127, Rounding::Down), None);
    assert_eq!(mul_shr(max, max, 128, Rounding::Down), None);
    assert_eq!(shl_div(1, 3, 64, Rounding::Down), Some(6148914691236517205));
    assert_eq!(shl_div(1, 3, 64, Rounding::Up), Some(6148914691236517206));
    assert_eq!(shl_div(1, 0, 64, Rounding::Down), None);
    assert_eq!(shl_div(max, 1, 1, Rounding::Down), None);
    assert_eq!(shl_div(1 << 100, 1 << 100, 127, Rounding::Down), Some(1 << 127));
    assert_eq!(shl_div(1, 1, 128, Rounding::Down), None);
}

#[test]
fn mul_div_rounds_and_overflows() {
    assert_eq!(safe_mul_div_u64(10, 10, 3, Rounding::Up), Ok(34));
    assert_eq!(safe_mul_div_u64(10, 10, 3, Rounding::Down), Ok(33));
    assert_eq!(safe_mul_div_u64(10, 10, 0, Rounding::Down), Err(ErrorCode::MathOverflow));
    assert_eq!(safe_mul_div_u64(u128::MAX, u128::MAX, u128::MAX, Rounding::Down), Err(ErrorCode::MathOverflow));
    assert_eq!(safe_mul_div_u64(ONE, ONE, ONE, Rounding::Down), Err(ErrorCode::MathOverflow));
    assert_eq!(safe_mul_div_u64(ONE - 1, ONE, ONE, Rounding::Down), Ok(u64::MAX));
    assert_eq!(safe_mul_div_u64(u128::MAX, u128::MAX, u128::MAX, Rounding::Up), Err(ErrorCode::MathOverflow));
    // a 256-bit intermediate product that divides back into range
    assert_eq!(safe_mul_div_u64(u128::MAX, 6, u128::MAX, Rounding::Down), Ok(6));
    assert_eq!(safe_mul_div_u64(1 << 100, 1 << 60, 1 << 120, Rounding::Down), Ok(1 << 40));
    assert_eq!(safe_mul_div_u64((1 << 100) + 1, 1 << 60, 1 << 120, Rounding::Up), Ok((1 << 40) + 1));
    assert_eq!(safe_mul_div_u64((1 << 100) + 1, 1 << 60, 1 << 120, Rounding::Down), Ok(1 << 40));
}

#[test]
fn amounts_convert_through_price() {
    let price = get_price_from_id(100, 100).unwrap();
    assert_eq!(get_amount_out(1000, price, true, Rounding::Down), Ok(2704));
    assert_eq!(get_amount_out(1000, price, false, Rounding::Down), Ok(369));
    assert_eq!(get_amount_in(1000, price, true, Rounding::Up), Ok(370));
    assert_eq!(get_amount_in(1000, price, false, Rounding::Up), Ok(2705));
    assert_eq!(get_amount_out(1000, ONE, true, Rounding::Down), Ok(1000));
    assert_eq!(get_amount_out(1000, 0, false, Rounding::Down), Err(ErrorCode::MathOverflow));
    assert_eq!(get_amount_out(u64::MAX, price, true, Rounding::Down), Err(ErrorCode::MathOverflow));
}

#[test]
fn max_amounts_of_a_bin() {
    let price = get_price_from_id(100, 100).unwrap();
    let bin = BinView { bin_id: 100, amount_x: 1000, amount_y: 2704, price, ..BinView::default() };
    assert_eq!(get_max_amount_out(&bin, true), 2704);
    assert_eq!(get_max_amount_out(&bin, false), 1000);
    assert_eq!(get_max_amount_in(&bin, price, true), Ok(1000));
    assert_eq!(get_max_amount_in(&bin, price, false), Ok(2705));
}

#[test]
fn limit_order_amounts_follow_direction() {
    let bid = BinView { limit_order_ask_side: 0, open_order_amount: 200_000, processed_order_remaining_amount: 50_000, amount_y: 100_000, ..BinView::default() };
    assert_eq!(get_limit_order_amounts_by_direction(&bid, true), (200_000, 50_000));
    assert_eq!(get_limit_order_amounts_by_direction(&bid, false), (0, 0));
    let ask = BinView { limit_order_ask_side: 1, ..bid };
    assert_eq!(get_limit_order_amounts_by_direction(&ask, true), (0, 0));
    assert_eq!(get_limit_order_amounts_by_direction(&ask, false), (200_000, 50_000));
    assert_eq!(get_max_amount_out_with_limit_orders(&bid, true, true), 350_000);
    assert_eq!(get_max_amount_out_with_limit_orders(&bid, true, false), 100_000);
    let huge = BinView { amount_y: u64::MAX, ..bid };
    assert_eq!(get_max_amount_out_with_limit_orders(&huge, true, true), u64::MAX);
}

#[test]
fn stored_price_is_resolved_once() {
    let mut bin = BinView { bin_id: 100, price: 0, ..BinView::default() };
    assert_eq!(get_or_store_bin_price(&mut bin, 100), Ok(49895008478369174654));
    assert_eq!(bin.price, 49895008478369174654);
    let mut set = BinView { bin_id: 100, price: 7, ..BinView::default() };
    assert_eq!(get_or_store_bin_price(&mut set, 100), Ok(7));
    let mut far = BinView { bin_id: 600_000, price: 0, ..BinView::default() };
    assert_eq!(get_or_store_bin_price(&mut far, 1), Err(ErrorCode::MathOverflow));
    assert_eq!(far.price, 0);
}

#[test]
fn error_reasons() {
    assert_eq!(ErrorCode::MathOverflow.reason(), "arithmetic overflow");
    assert_eq!(ErrorCode::BinIdOutOfBounds.reason(), "bin_id out of [MIN_BIN_ID, MAX_BIN_ID]");
    assert_eq!(ErrorCode::InsufficientLiquidity.reason(), "insufficient liquidity");
    assert_eq!(ErrorCode::PoolOutOfLiquidity.reason(), "pool out of liquidity");
    assert_eq!(ErrorCode::InvalidParameter.reason(), "invalid parameter");
}
