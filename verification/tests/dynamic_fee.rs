use solana_dlmm_meteora::dynamic_fee::{FEE_PRECISION, LIMIT_ORDER_FEE_SHARE, MAX_FEE_RATE};
use solana_dlmm_meteora::{
    advance_active_bin, compute_fee, compute_fee_from_amount, compute_protocol_fee,
    compute_variable_fee, fee_on_input, get_base_fee, get_total_fee, get_variable_fee,
    is_support_limit_order, update_references, update_volatility_accumulator, CollectFeeMode,
    ErrorCode, FunctionType, PoolView, StaticParameters, VariableParameters, MAX_BIN_ID, MIN_BIN_ID,
};

fn pool(active_id: i32, bin_step: u16) -> PoolView {
    PoolView {
        active_id,
        bin_step,
        has_rewards: false,
        parameters: StaticParameters {
            base_factor: 10_000,
            filter_period: 30,
            decay_period: 600,
            reduction_factor: 5_000,
            variable_fee_control: 40_000,
            max_volatility_accumulator: 350_000,
            min_bin_id: -443_636,
            max_bin_id: 443_636,
            protocol_share: 500,
            base_fee_power_factor: 0,
            function_type: 1,
            collect_fee_mode: 0,
        },
        v_parameters: VariableParameters {
            volatility_accumulator: 0,
            volatility_reference: 0,
            index_reference: active_id,
            last_update_timestamp: 0,
        },
    }
}

#[test]
fn constants() {
    assert_eq!(MAX_FEE_RATE, 100_000_000);
    assert_eq!(FEE_PRECISION, 1_000_000_000);
    assert_eq!(LIMIT_ORDER_FEE_SHARE, 5000);
}

#[test]
fn quiet_pool_fees() {
    let p = pool(100, 25);
    assert_eq!(get_base_fee(&p), Ok(2_500_000));
    assert_eq!(get_variable_fee(&p), Ok(0));
    assert_eq!(get_total_fee(&p), Ok(2_500_000));
    assert_eq!(compute_fee(&p, 1_000_000), Ok(2507));
    assert_eq!(compute_fee_from_amount(&p, 1_000_000), Ok(2500));
    assert_eq!(compute_protocol_fee(&p, 12_345), Ok(617));
}

#[test]
fn variable_fee_at_volatility() {
    let mut p = pool(100, 25);
    assert_eq!(compute_variable_fee(&p, 10_000), Ok(25_000));
    assert_eq!(compute_variable_fee(&p, 100_000), Ok(2_500_000));
    p.v_parameters.volatility_accumulator = 100_000;
    assert_eq!(get_variable_fee(&p), Ok(2_500_000));
    assert_eq!(get_total_fee(&p), Ok(5_000_000));
    p.parameters.variable_fee_control = 0;
    assert_eq!(get_variable_fee(&p), Ok(0));
    p.parameters.variable_fee_control = u32::MAX;
    assert_eq!(compute_variable_fee(&p, u32::MAX), Ok(495_176_015_368_275_658_659));
    p.bin_step = u16::MAX;
    assert_eq!(compute_variable_fee(&p, u32::MAX), Ok(3_402_719_821_687_723_223_345_048_702));
}

#[test]
fn base_fee_power_factor_and_cap() {
    let mut p = pool(100, 25);
    p.parameters.base_fee_power_factor = 2;
    assert_eq!(get_base_fee(&p), Ok(250_000_000));
    assert_eq!(get_total_fee(&p), Ok(100_000_000));
    p.parameters.base_fee_power_factor = 38;
    assert_eq!(get_base_fee(&p), Err(ErrorCode::MathOverflow));
    assert_eq!(get_total_fee(&p), Err(ErrorCode::MathOverflow));
    assert_eq!(compute_fee(&p, 1), Err(ErrorCode::MathOverflow));
    p.parameters.base_factor = 0;
    assert_eq!(get_base_fee(&p), Ok(0));
}

#[test]
fn protocol_fee_overflow() {
    let mut p = pool(100, 25);
    p.parameters.protocol_share = u16::MAX;
    assert_eq!(compute_protocol_fee(&p, u64::MAX), Err(ErrorCode::MathOverflow));
    assert_eq!(compute_protocol_fee(&p, 10_000), Ok(65_535));
}

#[test]
fn gross_up_covers_contained_fee() {
    let mut p = pool(100, 25);
    p.v_parameters.volatility_accumulator = 200_000;
    for amount in [1u64, 999, 1_000_000, 123_456_789] {
        let fee = compute_fee(&p, amount).unwrap();
        let contained = compute_fee_from_amount(&p, amount + fee).unwrap();
        assert!(contained <= fee);
        assert!(amount + fee - contained >= amount);
    }
}

#[test]
fn update_references_branches() {
    // within the filter period nothing changes
    let mut p = pool(100, 25);
    p.v_parameters.volatility_accumulator = 30_000;
    p.v_parameters.index_reference = 50;
    let before = p;
    assert_eq!(update_references(&mut p, 10), Ok(()));
    assert_eq!(p, before);
    // decay window
    assert_eq!(update_references(&mut p, 100), Ok(()));
    assert_eq!(p.v_parameters.index_reference, 100);
    assert_eq!(p.v_parameters.volatility_reference, 15_000);
    // past the decay period
    let mut q = before;
    assert_eq!(update_references(&mut q, 1000), Ok(()));
    assert_eq!(q.v_parameters.index_reference, 100);
    assert_eq!(q.v_parameters.volatility_reference, 0);
    // elapsed time out of range
    let mut r = before;
    r.v_parameters.last_update_timestamp = i64::MIN;
    assert_eq!(update_references(&mut r, i64::MAX), Err(ErrorCode::MathOverflow));
    // product overflow after the reference bin was frozen
    let mut s = before;
    s.v_parameters.volatility_accumulator = u32::MAX;
    s.parameters.reduction_factor = 2;
    assert_eq!(update_references(&mut s, 100), Err(ErrorCode::MathOverflow));
    assert_eq!(s.v_parameters.index_reference, 100);
}

#[test]
fn volatility_accumulator_accumulates_and_caps() {
    let mut p = pool(100, 25);
    p.v_parameters.volatility_reference = 1_000;
    p.v_parameters.index_reference = 90;
    assert_eq!(update_volatility_accumulator(&mut p), Ok(()));
    assert_eq!(p.v_parameters.volatility_accumulator, 101_000);
    p.v_parameters.volatility_reference = 340_000;
    assert_eq!(update_volatility_accumulator(&mut p), Ok(()));
    assert_eq!(p.v_parameters.volatility_accumulator, 350_000);
}

#[test]
fn volatility_accumulator_never_exceeds_cap() {
    for vol_ref in [0u32, 1, 999_999, 1_999_999, u32::MAX] {
        for idx_ref in [-10_000i32, -1, 0, 7, 9_999, i32::MIN, i32::MAX] {
            for active in [-10_000i32, 0, 9_999, i32::MAX] {
                for cap in [1u32, 350_000, 1_999_999] {
                    let mut p = pool(active, 100);
                    p.parameters.max_volatility_accumulator = cap;
                    p.v_parameters.volatility_reference = vol_ref;
                    p.v_parameters.index_reference = idx_ref;
                    update_volatility_accumulator(&mut p).unwrap();
                    assert!(p.v_parameters.volatility_accumulator <= cap);
                }
            }
        }
    }
}

#[test]
fn advance_active_bin_bounds() {
    let mut p = pool(100, 25);
    assert_eq!(advance_active_bin(&mut p, true), Ok(()));
    assert_eq!(p.active_id, 99);
    assert_eq!(advance_active_bin(&mut p, false), Ok(()));
    assert_eq!(p.active_id, 100);
    let mut low = pool(MIN_BIN_ID, 25);
    assert_eq!(advance_active_bin(&mut low, true), Err(ErrorCode::InsufficientLiquidity));
    assert_eq!(low.active_id, MIN_BIN_ID);
    let mut high = pool(MAX_BIN_ID, 25);
    assert_eq!(advance_active_bin(&mut high, false), Err(ErrorCode::InsufficientLiquidity));
    let mut edge = pool(i32::MIN, 25);
    assert_eq!(advance_active_bin(&mut edge, true), Err(ErrorCode::MathOverflow));
}

#[test]
fn limit_order_support_and_fee_mode_tables() {
    let mut p = pool(0, 25);
    p.parameters.function_type = 2;
    assert!(is_support_limit_order(&p));
    p.parameters.function_type = 1;
    assert!(!is_support_limit_order(&p));
    p.parameters.function_type = 0;
    assert!(is_support_limit_order(&p));
    p.has_rewards = true;
    assert!(!is_support_limit_order(&p));
    p.parameters.function_type = 9;
    assert!(!is_support_limit_order(&p));

    p.parameters.collect_fee_mode = 0;
    assert!(fee_on_input(&p, true) && fee_on_input(&p, false));
    p.parameters.collect_fee_mode = 1;
    assert!(!fee_on_input(&p, true) && fee_on_input(&p, false));
    p.parameters.collect_fee_mode = 7;
    assert!(fee_on_input(&p, true) && fee_on_input(&p, false));
}

#[test]
fn flag_conversions() {
    assert_eq!(FunctionType::try_from(0u8), Ok(FunctionType::Undetermined));
    assert_eq!(FunctionType::try_from(1u8), Ok(FunctionType::LiquidityMining));
    assert_eq!(FunctionType::try_from(2u8), Ok(FunctionType::LimitOrder));
    assert_eq!(FunctionType::try_from(3u8), Err(ErrorCode::InvalidParameter));
    assert_eq!(CollectFeeMode::try_from(0u8), Ok(CollectFeeMode::InputOnly));
    assert_eq!(CollectFeeMode::try_from(1u8), Ok(CollectFeeMode::OnlyY));
    assert_eq!(CollectFeeMode::try_from(2u8), Err(ErrorCode::InvalidParameter));
}
