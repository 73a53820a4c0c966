//! The dynamic-fee state machine: pool-level fee parameters and the
//! per-swap updates of the volatility accumulator.
//!
//! The fee rate is `base_fee + variable_fee(volatility)`, capped at
//! [`MAX_FEE_RATE`]. [`update_references`] runs once per swap and freezes or
//! decays the reference against `filter_period` / `decay_period`;
//! [`update_volatility_accumulator`] runs for every bin crossed and sets the
//! accumulator to `volatility_reference + |index_reference - active_id| *
//! BASIS_POINT_MAX`, capped at `max_volatility_accumulator`.
use crate::bin_math::{BASIS_POINT_MAX, MAX_BIN_ID, MIN_BIN_ID};
use crate::error::ErrorCode;
use vstd::arithmetic::div_mod::*;
use vstd::prelude::*;

verus! {

/// Maximum fee rate: 10% in `FEE_PRECISION` units.
pub const MAX_FEE_RATE: u64 = 100_000_000;

/// Denominator of fee rates.
pub const FEE_PRECISION: u64 = 1_000_000_000;

/// Share (in basis points) of a limit order's trading fee that goes to the
/// order placer.
pub const LIMIT_ORDER_FEE_SHARE: u16 = 5000;

/// Parameters set by the protocol.
#[derive(Debug, Clone, Copy, PartialEq, Eq, Default, Structural)]
pub struct StaticParameters {
    /// Used for base fee calculation: `base_fee_rate = base_factor * bin_step * 10 * 10^base_fee_power_factor`.
    pub base_factor: u16,
    /// High-frequency trading window (seconds).
    pub filter_period: u16,
    /// Time after which the volatility reference stops decaying and resets.
    pub decay_period: u16,
    /// Decay of the volatility reference, in basis points.
    pub reduction_factor: u16,
    /// Scales the variable fee component.
    pub variable_fee_control: u32,
    /// Cap of the volatility accumulator.
    pub max_volatility_accumulator: u32,
    /// Min bin id supported by the pool.
    pub min_bin_id: i32,
    /// Max bin id supported by the pool.
    pub max_bin_id: i32,
    /// Portion (basis points) of swap fees retained by the protocol.
    pub protocol_share: u16,
    /// Power of ten applied to the base fee.
    pub base_fee_power_factor: u8,
    /// Function type flag byte (see [`FunctionType`]).
    pub function_type: u8,
    /// Collect-fee-mode flag byte (see [`CollectFeeMode`]).
    pub collect_fee_mode: u8,
}

/// Parameters that follow the dynamics of the market.
#[derive(Debug, Clone, Copy, PartialEq, Eq, Default, Structural)]
pub struct VariableParameters {
    /// Bins crossed since the reference bin, scaled by `BASIS_POINT_MAX`.
    pub volatility_accumulator: u32,
    /// Decayed volatility accumulator.
    pub volatility_reference: u32,
    /// Active bin id of the last swap outside the filter period.
    pub index_reference: i32,
    /// Last timestamp the variable parameters were updated.
    pub last_update_timestamp: i64,
}

/// The pool state the swap path reads and writes.
#[derive(Debug, Clone, Copy, PartialEq, Eq, Structural)]
pub struct PoolView {
    /// The pool's active bin id.
    pub active_id: i32,
    /// Price increment between adjacent bins, in basis points.
    pub bin_step: u16,
    /// True if the pool has any reward configured.
    pub has_rewards: bool,
    /// Static pool parameters.
    pub parameters: StaticParameters,
    /// Variable (volatility) parameters.
    pub v_parameters: VariableParameters,
}

/// What a pool is used for.
#[derive(Debug, Clone, Copy, PartialEq, Eq, Structural)]
pub enum FunctionType {
    Undetermined,
    LiquidityMining,
    LimitOrder,
}

/// Which token swap fees are collected in.
#[derive(Debug, Clone, Copy, PartialEq, Eq, Structural)]
pub enum CollectFeeMode {
    InputOnly,
    OnlyY,
}

/// The decoding of a function-type flag byte.
pub open spec fn function_type_from_byte(value: u8) -> Result<FunctionType, ErrorCode> {
    if value == 0 {
        Ok(FunctionType::Undetermined)
    } else if value == 1 {
        Ok(FunctionType::LiquidityMining)
    } else if value == 2 {
        Ok(FunctionType::LimitOrder)
    } else {
        Err(ErrorCode::InvalidParameter)
    }
}

/// The decoding of a collect-fee-mode flag byte.
pub open spec fn collect_fee_mode_from_byte(value: u8) -> Result<CollectFeeMode, ErrorCode> {
    if value == 0 {
        Ok(CollectFeeMode::InputOnly)
    } else if value == 1 {
        Ok(CollectFeeMode::OnlyY)
    } else {
        Err(ErrorCode::InvalidParameter)
    }
}

impl TryFrom<u8> for FunctionType {
    type Error = ErrorCode;

    fn try_from(value: u8) -> (res: Result<FunctionType, ErrorCode>) {
        match value {
            0 => Ok(FunctionType::Undetermined),
            1 => Ok(FunctionType::LiquidityMining),
            2 => Ok(FunctionType::LimitOrder),
            _ => Err(ErrorCode::InvalidParameter),
        }
    }
}

impl vstd::std_specs::convert::TryFromSpecImpl<u8> for FunctionType {
    open spec fn obeys_try_from_spec() -> bool {
        true
    }

    open spec fn try_from_spec(value: u8) -> Result<FunctionType, ErrorCode> {
        function_type_from_byte(value)
    }
}

impl TryFrom<u8> for CollectFeeMode {
    type Error = ErrorCode;

    fn try_from(value: u8) -> (res: Result<CollectFeeMode, ErrorCode>) {
        match value {
            0 => Ok(CollectFeeMode::InputOnly),
            1 => Ok(CollectFeeMode::OnlyY),
            _ => Err(ErrorCode::InvalidParameter),
        }
    }
}

impl vstd::std_specs::convert::TryFromSpecImpl<u8> for CollectFeeMode {
    open spec fn obeys_try_from_spec() -> bool {
        true
    }

    open spec fn try_from_spec(value: u8) -> Result<CollectFeeMode, ErrorCode> {
        collect_fee_mode_from_byte(value)
    }
}


/// Pool state and outcome of [`update_references`] at `current_timestamp`.
///
/// With `elapsed = current_timestamp - last_update_timestamp` (an error when
/// it leaves `i64`): once `elapsed >= filter_period`, the reference bin is
/// set to the active bin and the volatility reference becomes
/// `volatility_accumulator * reduction_factor / BASIS_POINT_MAX` while
/// `elapsed < decay_period` (an error, after the reference bin was set, when
/// the product exceeds `u32::MAX`), and 0 afterwards. Within the filter
/// period nothing changes.
pub open spec fn update_references_result(pool: PoolView, current_timestamp: i64) -> (PoolView, Result<(), ErrorCode>) {
    let elapsed = current_timestamp - pool.v_parameters.last_update_timestamp;
    if elapsed < i64::MIN || elapsed > i64::MAX {
        (pool, Err(ErrorCode::MathOverflow))
    } else if elapsed >= pool.parameters.filter_period {
        let frozen = PoolView {
            v_parameters: VariableParameters { index_reference: pool.active_id, ..pool.v_parameters },
            ..pool
        };
        if elapsed < pool.parameters.decay_period {
            let product = pool.v_parameters.volatility_accumulator * pool.parameters.reduction_factor;
            if product > u32::MAX {
                (frozen, Err(ErrorCode::MathOverflow))
            } else {
                (
                    PoolView {
                        v_parameters: VariableParameters {
                            volatility_reference: (product / (BASIS_POINT_MAX as int)) as u32,
                            ..frozen.v_parameters
                        },
                        ..frozen
                    },
                    Ok(()),
                )
            }
        } else {
            (
                PoolView {
                    v_parameters: VariableParameters { volatility_reference: 0, ..frozen.v_parameters },
                    ..frozen
                },
                Ok(()),
            )
        }
    } else {
        (pool, Ok(()))
    }
}

/// Once-per-swap update of the volatility reference.
pub fn update_references(pool: &mut PoolView, current_timestamp: i64) -> (res: Result<(), ErrorCode>)
    ensures
        (*final(pool), res) == update_references_result(*old(pool), current_timestamp),
{
    let last = pool.v_parameters.last_update_timestamp;
    let elapsed: i64 = if last >= 0 {
        if current_timestamp < i64::MIN + last {
            return Err(ErrorCode::MathOverflow);
        }
        current_timestamp - last
    } else {
        if current_timestamp > i64::MAX + last {
            return Err(ErrorCode::MathOverflow);
        }
        current_timestamp - last
    };
    if elapsed >= pool.parameters.filter_period as i64 {
        pool.v_parameters.index_reference = pool.active_id;
        if elapsed < pool.parameters.decay_period as i64 {
            let accumulator = pool.v_parameters.volatility_accumulator;
            let factor = pool.parameters.reduction_factor as u32;
            match accumulator.checked_mul(factor) {
                Some(product) => {
                    pool.v_parameters.volatility_reference = product / (BASIS_POINT_MAX as u32);
                },
                None => {
                    return Err(ErrorCode::MathOverflow);
                },
            }
        } else {
            pool.v_parameters.volatility_reference = 0;
        }
    }
    Ok(())
}

/// `|index_reference - active_id|` of a pool.
pub open spec fn reference_distance(pool: PoolView) -> int {
    let delta = pool.v_parameters.index_reference - pool.active_id;
    if delta < 0 { -delta } else { delta }
}

/// The accumulator set by [`update_volatility_accumulator`]:
/// `min(volatility_reference + |index_reference - active_id| * BASIS_POINT_MAX, max_volatility_accumulator)`.
pub open spec fn next_volatility_accumulator(pool: PoolView) -> u32 {
    let raw = pool.v_parameters.volatility_reference + reference_distance(pool) * (BASIS_POINT_MAX as int);
    if raw < pool.parameters.max_volatility_accumulator { raw as u32 } else { pool.parameters.max_volatility_accumulator }
}

/// `pool` with its volatility accumulator replaced by `accumulator`.
pub open spec fn with_volatility_accumulator(pool: PoolView, accumulator: u32) -> PoolView {
    PoolView {
        v_parameters: VariableParameters { volatility_accumulator: accumulator, ..pool.v_parameters },
        ..pool
    }
}

/// Per-bin-crossed update of the volatility accumulator. Never fails.
pub fn update_volatility_accumulator(pool: &mut PoolView) -> (res: Result<(), ErrorCode>)
    ensures
        res is Ok,
        *final(pool) == with_volatility_accumulator(*old(pool), next_volatility_accumulator(*old(pool))),
        final(pool).v_parameters.volatility_accumulator <= old(pool).parameters.max_volatility_accumulator,
{
    let delta: i64 = pool.v_parameters.index_reference as i64 - pool.active_id as i64;
    let distance: u64 = if delta < 0 { (-delta) as u64 } else { delta as u64 };
    proof {
        assert(distance * 10000 <= 0x1_0000_0000 * 10000) by (nonlinear_arith)
            requires distance <= 0x1_0000_0000;
    }
    let raw: u64 = pool.v_parameters.volatility_reference as u64 + distance * (BASIS_POINT_MAX as u64);
    let cap = pool.parameters.max_volatility_accumulator;
    pool.v_parameters.volatility_accumulator = if raw < cap as u64 { raw as u32 } else { cap };
    Ok(())
}

/// `10^n`.
pub open spec fn pow10(n: nat) -> nat
    decreases n,
{
    if n == 0 { 1 } else { 10 * pow10((n - 1) as nat) }
}

/// `10^n` as a `u128` (`n <= 38`).
fn pow10_u128(n: u8) -> (res: u128)
    requires
        n <= 38,
    ensures
        res == pow10(n as nat),
{
    proof {
        reveal_with_fuel(pow10, 40);
        assert(pow10(38) == 100_000_000_000_000_000_000_000_000_000_000_000_000);
    }
    let mut res: u128 = 1;
    let mut i: u8 = 0;
    while i < n
        invariant
            i <= n <= 38,
            res == pow10(i as nat),
            res * pow10((38 - i) as nat) == pow10(38),
            pow10(38) == 100_000_000_000_000_000_000_000_000_000_000_000_000,
        decreases n - i,
    {
        proof {
            assert(pow10((38 - i) as nat) == 10 * pow10((38 - i - 1) as nat));
            assert(pow10((38 - i - 1) as nat) >= 1) by {
                lemma_pow10_positive((38 - i - 1) as nat);
            }
            assert(res * 10 <= pow10(38)) by (nonlinear_arith)
                requires
                    res * pow10((38 - i) as nat) == pow10(38),
                    pow10((38 - i) as nat) == 10 * pow10((38 - i - 1) as nat),
                    pow10((38 - i - 1) as nat) >= 1,
                    res >= 0,
            ;
            assert((res * 10) * pow10((38 - (i + 1)) as nat) == pow10(38)) by (nonlinear_arith)
                requires
                    res * pow10((38 - i) as nat) == pow10(38),
                    pow10((38 - i) as nat) == 10 * pow10((38 - i - 1) as nat),
            ;
        }
        res = res * 10;
        i = i + 1;
    }
    res
}

proof fn lemma_pow10_positive(n: nat)
    ensures
        pow10(n) >= 1,
    decreases n,
{
    if n > 0 {
        lemma_pow10_positive((n - 1) as nat);
    }
}

/// The base fee rate `base_factor * bin_step * 10 * 10^base_fee_power_factor`.
pub open spec fn base_fee_rate(pool: PoolView) -> int {
    pool.parameters.base_factor * pool.bin_step * 10 * pow10(pool.parameters.base_fee_power_factor as nat)
}

/// The result of [`get_base_fee`].
pub open spec fn base_fee_result(pool: PoolView) -> Result<u128, ErrorCode> {
    if base_fee_rate(pool) > u128::MAX {
        Err(ErrorCode::MathOverflow)
    } else {
        Ok(base_fee_rate(pool) as u128)
    }
}

/// Base fee rate in `FEE_PRECISION` units.
pub fn get_base_fee(pool: &PoolView) -> (res: Result<u128, ErrorCode>)
    requires
        pool.parameters.base_fee_power_factor <= 38,
    ensures
        res == base_fee_result(*pool),
{
    proof {
        assert(pool.parameters.base_factor as int * pool.bin_step as int * 10 <= 0xffff * 0xffff * 10) by (nonlinear_arith)
            requires pool.parameters.base_factor <= 0xffff, pool.bin_step <= 0xffff;
    }
    let scaled: u128 = pool.parameters.base_factor as u128 * pool.bin_step as u128 * 10;
    let power = pow10_u128(pool.parameters.base_fee_power_factor);
    match scaled.checked_mul(power) {
        Some(fee) => Ok(fee),
        None => Err(ErrorCode::MathOverflow),
    }
}

/// The result of [`compute_variable_fee`]:
/// `ceil(variable_fee_control * (volatility_accumulator * bin_step)^2 / 10^11)`,
/// or 0 when `variable_fee_control` is 0; an error when the rounded-up
/// numerator exceeds `u128::MAX`.
pub open spec fn variable_fee_result(pool: PoolView, volatility_accumulator: u32) -> Result<u128, ErrorCode> {
    if pool.parameters.variable_fee_control > 0 {
        let scaled = volatility_accumulator * pool.bin_step;
        let numerator = pool.parameters.variable_fee_control * (scaled * scaled) + 99_999_999_999;
        if numerator > u128::MAX {
            Err(ErrorCode::MathOverflow)
        } else {
            Ok((numerator / 100_000_000_000) as u128)
        }
    } else {
        Ok(0)
    }
}

/// Variable fee rate for an arbitrary volatility accumulator value.
pub fn compute_variable_fee(pool: &PoolView, volatility_accumulator: u32) -> (res: Result<u128, ErrorCode>)
    ensures
        res == variable_fee_result(*pool, volatility_accumulator),
{
    if pool.parameters.variable_fee_control > 0 {
        let volatility_accumulator: u128 = volatility_accumulator as u128;
        let bin_step: u128 = pool.bin_step as u128;
        let variable_fee_control: u128 = pool.parameters.variable_fee_control as u128;
        proof {
            assert(volatility_accumulator * bin_step <= 0xffff_ffff * 0xffff) by (nonlinear_arith)
                requires volatility_accumulator <= 0xffff_ffff, bin_step <= 0xffff;
        }
        let scaled = volatility_accumulator * bin_step;
        proof {
            assert(scaled * scaled <= 0xffff_ffff_ffff * 0xffff_ffff_ffff) by (nonlinear_arith)
                requires scaled <= 0xffff_ffff_ffff;
        }
        let square = scaled * scaled;
        let v_fee = match variable_fee_control.checked_mul(square) {
            Some(v) => v,
            None => {
                return Err(ErrorCode::MathOverflow);
            },
        };
        let rounded = match v_fee.checked_add(99_999_999_999) {
            Some(v) => v,
            None => {
                return Err(ErrorCode::MathOverflow);
            },
        };
        return Ok(rounded / 100_000_000_000);
    }
    Ok(0)
}

/// Variable fee rate for the pool's current volatility accumulator.
pub fn get_variable_fee(pool: &PoolView) -> (res: Result<u128, ErrorCode>)
    ensures
        res == variable_fee_result(*pool, pool.v_parameters.volatility_accumulator),
{
    compute_variable_fee(pool, pool.v_parameters.volatility_accumulator)
}

/// The result of [`get_total_fee`]: `min(base_fee + variable_fee, MAX_FEE_RATE)`.
pub open spec fn total_fee_result(pool: PoolView) -> Result<u128, ErrorCode> {
    match base_fee_result(pool) {
        Err(e) => Err(e),
        Ok(base) => match variable_fee_result(pool, pool.v_parameters.volatility_accumulator) {
            Err(e) => Err(e),
            Ok(variable) => if base + variable > u128::MAX {
                Err(ErrorCode::MathOverflow)
            } else if base + variable < MAX_FEE_RATE {
                Ok((base + variable) as u128)
            } else {
                Ok(MAX_FEE_RATE as u128)
            },
        },
    }
}

/// Total fee rate (base + variable), capped at [`MAX_FEE_RATE`].
pub fn get_total_fee(pool: &PoolView) -> (res: Result<u128, ErrorCode>)
    requires
        pool.parameters.base_fee_power_factor <= 38,
    ensures
        res == total_fee_result(*pool),
        res matches Ok(rate) ==> rate <= MAX_FEE_RATE,
{
    let base = match get_base_fee(pool) {
        Ok(v) => v,
        Err(e) => {
            return Err(e);
        },
    };
    let variable = match get_variable_fee(pool) {
        Ok(v) => v,
        Err(e) => {
            return Err(e);
        },
    };
    match base.checked_add(variable) {
        Some(total) => {
            if total < MAX_FEE_RATE as u128 {
                Ok(total)
            } else {
                Ok(MAX_FEE_RATE as u128)
            }
        },
        None => Err(ErrorCode::MathOverflow),
    }
}

/// The fee to add on top of a fee-excluded `amount` at fee rate `rate`:
/// `ceil(amount * rate / (FEE_PRECISION - rate))`.
pub open spec fn gross_up_fee(amount: int, rate: int) -> int {
    (amount * rate + (FEE_PRECISION - rate) - 1) / (FEE_PRECISION - rate)
}

/// The fee contained in a fee-included `amount` at fee rate `rate`:
/// `ceil(amount * rate / FEE_PRECISION)`.
pub open spec fn contained_fee(amount: int, rate: int) -> int {
    (amount * rate + FEE_PRECISION - 1) / (FEE_PRECISION as int)
}

/// The result of [`compute_fee`].
pub open spec fn compute_fee_result(pool: PoolView, amount: u64) -> Result<u64, ErrorCode> {
    match total_fee_result(pool) {
        Ok(rate) => Ok(gross_up_fee(amount as int, rate as int) as u64),
        Err(e) => Err(e),
    }
}

/// The result of [`compute_fee_from_amount`].
pub open spec fn compute_fee_from_amount_result(pool: PoolView, amount_with_fees: u64) -> Result<u64, ErrorCode> {
    match total_fee_result(pool) {
        Ok(rate) => Ok(contained_fee(amount_with_fees as int, rate as int) as u64),
        Err(e) => Err(e),
    }
}

proof fn lemma_ceil_div_at_most(amount: int, rate: int, denominator: int)
    requires
        0 <= amount,
        0 <= rate <= denominator,
        denominator > 0,
    ensures
        0 <= (amount * rate + denominator - 1) / denominator <= amount,
{
    assert(0 <= amount * rate <= amount * denominator) by (nonlinear_arith)
        requires 0 <= amount, 0 <= rate <= denominator;
    assert(amount * rate + denominator - 1 < (amount + 1) * denominator) by (nonlinear_arith)
        requires amount * rate <= amount * denominator, denominator > 0;
    vstd::arithmetic::div_mod::lemma_div_pos_is_pos(amount * rate + denominator - 1, denominator);
    let q = (amount * rate + denominator - 1) / denominator;
    vstd::arithmetic::div_mod::lemma_fundamental_div_mod(amount * rate + denominator - 1, denominator);
    vstd::arithmetic::div_mod::lemma_mod_pos_bound(amount * rate + denominator - 1, denominator);
    if q > amount {
        assert(false) by (nonlinear_arith)
            requires
                q >= amount + 1,
                denominator > 0,
                amount * rate + denominator - 1 == denominator * q + (amount * rate + denominator - 1) % denominator,
                (amount * rate + denominator - 1) % denominator >= 0,
                amount * rate + denominator - 1 < (amount + 1) * denominator,
        ;
    }
}

/// The fee to add on top of a fee-excluded amount (gross-up, rounded up).
pub fn compute_fee(pool: &PoolView, amount: u64) -> (res: Result<u64, ErrorCode>)
    requires
        pool.parameters.base_fee_power_factor <= 38,
    ensures
        res == compute_fee_result(*pool, amount),
        res matches Ok(fee) ==> fee <= amount,
{
    let rate = match get_total_fee(pool) {
        Ok(v) => v,
        Err(e) => {
            return Err(e);
        },
    };
    let denominator: u128 = FEE_PRECISION as u128 - rate;
    proof {
        assert(amount as int * rate as int <= 0xffff_ffff_ffff_ffff * 100_000_000) by (nonlinear_arith)
            requires amount <= 0xffff_ffff_ffff_ffff, rate <= 100_000_000;
        lemma_ceil_div_at_most(amount as int, rate as int, denominator as int);
    }
    let fee = (amount as u128 * rate + denominator - 1) / denominator;
    Ok(fee as u64)
}

/// The fee contained inside a fee-included amount (rounded up).
pub fn compute_fee_from_amount(pool: &PoolView, amount_with_fees: u64) -> (res: Result<u64, ErrorCode>)
    requires
        pool.parameters.base_fee_power_factor <= 38,
    ensures
        res == compute_fee_from_amount_result(*pool, amount_with_fees),
        res matches Ok(fee) ==> fee <= amount_with_fees,
{
    let rate = match get_total_fee(pool) {
        Ok(v) => v,
        Err(e) => {
            return Err(e);
        },
    };
    proof {
        assert(amount_with_fees as int * rate as int <= 0xffff_ffff_ffff_ffff * 100_000_000) by (nonlinear_arith)
            requires amount_with_fees <= 0xffff_ffff_ffff_ffff, rate <= 100_000_000;
        lemma_ceil_div_at_most(amount_with_fees as int, rate as int, FEE_PRECISION as int);
    }
    let fee = (amount_with_fees as u128 * rate + (FEE_PRECISION - 1) as u128) / FEE_PRECISION as u128;
    Ok(fee as u64)
}

/// The result of [`compute_protocol_fee`]: `fee_amount * protocol_share / BASIS_POINT_MAX`
/// (rounded down), an error when it exceeds `u64::MAX`.
pub open spec fn protocol_fee_result(pool: PoolView, fee_amount: u64) -> Result<u64, ErrorCode> {
    let fee = fee_amount * pool.parameters.protocol_share / (BASIS_POINT_MAX as int);
    if fee > u64::MAX {
        Err(ErrorCode::MathOverflow)
    } else {
        Ok(fee as u64)
    }
}

/// The protocol's share of a fee amount (rounded down).
pub fn compute_protocol_fee(pool: &PoolView, fee_amount: u64) -> (res: Result<u64, ErrorCode>)
    ensures
        res == protocol_fee_result(*pool, fee_amount),
{
    proof {
        assert(fee_amount as int * pool.parameters.protocol_share as int <= 0xffff_ffff_ffff_ffff * 0xffff) by (nonlinear_arith)
            requires fee_amount <= 0xffff_ffff_ffff_ffff, pool.parameters.protocol_share <= 0xffff;
    }
    let fee = fee_amount as u128 * pool.parameters.protocol_share as u128 / BASIS_POINT_MAX as u128;
    if fee > u64::MAX as u128 {
        Err(ErrorCode::MathOverflow)
    } else {
        Ok(fee as u64)
    }
}

/// Pool state and outcome of [`advance_active_bin`]: the active bin moves
/// one step down (`swap_for_y`) or up, unless the new id leaves `i32`
/// (`MathOverflow`) or `[MIN_BIN_ID, MAX_BIN_ID]` (`InsufficientLiquidity`).
pub open spec fn advance_active_bin_result(pool: PoolView, swap_for_y: bool) -> (PoolView, Result<(), ErrorCode>) {
    let next = if swap_for_y { pool.active_id - 1 } else { pool.active_id + 1 };
    if next < i32::MIN || next > i32::MAX {
        (pool, Err(ErrorCode::MathOverflow))
    } else if next < MIN_BIN_ID || next > MAX_BIN_ID {
        (pool, Err(ErrorCode::InsufficientLiquidity))
    } else {
        (PoolView { active_id: next as i32, ..pool }, Ok(()))
    }
}

/// Move the active bin one step in the swap direction.
pub fn advance_active_bin(pool: &mut PoolView, swap_for_y: bool) -> (res: Result<(), ErrorCode>)
    ensures
        (*final(pool), res) == advance_active_bin_result(*old(pool), swap_for_y),
{
    let next_active_bin_id = if swap_for_y {
        match pool.active_id.checked_sub(1) {
            Some(v) => v,
            None => {
                return Err(ErrorCode::MathOverflow);
            },
        }
    } else {
        match pool.active_id.checked_add(1) {
            Some(v) => v,
            None => {
                return Err(ErrorCode::MathOverflow);
            },
        }
    };
    if !(next_active_bin_id >= MIN_BIN_ID && next_active_bin_id <= MAX_BIN_ID) {
        return Err(ErrorCode::InsufficientLiquidity);
    }
    pool.active_id = next_active_bin_id;
    Ok(())
}

/// Whether a pool supports limit orders: pools flagged for limit orders do,
/// liquidity-mining pools and unknown flags do not, and undetermined pools
/// do when they have no reward configured.
pub open spec fn supports_limit_order(pool: PoolView) -> bool {
    match function_type_from_byte(pool.parameters.function_type) {
        Ok(FunctionType::LimitOrder) => true,
        Ok(FunctionType::LiquidityMining) => false,
        Ok(FunctionType::Undetermined) => !pool.has_rewards,
        Err(_) => false,
    }
}

/// Whether the pool supports limit orders.
pub fn is_support_limit_order(pool: &PoolView) -> (res: bool)
    ensures
        res == supports_limit_order(*pool),
{
    match FunctionType::try_from(pool.parameters.function_type) {
        Ok(FunctionType::LimitOrder) => true,
        Ok(FunctionType::LiquidityMining) => false,
        Ok(FunctionType::Undetermined) => !pool.has_rewards,
        Err(_) => false,
    }
}

/// Whether the fee is charged on the input token: always, except for
/// "only Y" pools when X is sold for Y (the fee is then taken from the Y
/// output); unknown flags charge the input.
pub open spec fn fee_charged_on_input(pool: PoolView, swap_for_y: bool) -> bool {
    match collect_fee_mode_from_byte(pool.parameters.collect_fee_mode) {
        Ok(CollectFeeMode::InputOnly) => true,
        Ok(CollectFeeMode::OnlyY) => !swap_for_y,
        Err(_) => true,
    }
}

/// Whether the fee is charged on the input token for the given swap direction.
pub fn fee_on_input(pool: &PoolView, swap_for_y: bool) -> (res: bool)
    ensures
        res == fee_charged_on_input(*pool, swap_for_y),
{
    match CollectFeeMode::try_from(pool.parameters.collect_fee_mode) {
        Ok(CollectFeeMode::InputOnly) => true,
        Ok(CollectFeeMode::OnlyY) => !swap_for_y,
        Err(_) => true,
    }
}

/// A successful total fee rate never exceeds [`MAX_FEE_RATE`].
pub proof fn lemma_total_fee_capped(pool: PoolView)
    ensures
        total_fee_result(pool) matches Ok(rate) ==> rate <= MAX_FEE_RATE,
{
}

/// A fee, whether grossed up on top of an amount or contained in it, never
/// exceeds the amount.
pub proof fn lemma_fees_within_amount(pool: PoolView, amount: u64)
    ensures
        compute_fee_result(pool, amount) matches Ok(fee) ==> fee <= amount,
        compute_fee_from_amount_result(pool, amount) matches Ok(fee) ==> fee <= amount,
{
    if let Ok(rate) = total_fee_result(pool) {
        lemma_ceil_div_at_most(amount as int, rate as int, (FEE_PRECISION - rate) as int);
        lemma_ceil_div_at_most(amount as int, rate as int, FEE_PRECISION as int);
    }
}

/// Grossing an amount up by [`compute_fee`] covers the fee that
/// [`compute_fee_from_amount`] takes back out of the grossed-up amount: the
/// contained fee of `amount + fee` is at most `fee`, so at least `amount`
/// is left once it is deducted.
pub proof fn lemma_gross_up_covers_contained_fee(pool: PoolView, amount: u64)
    requires
        compute_fee_result(pool, amount) matches Ok(fee) && amount + fee <= u64::MAX,
    ensures
        compute_fee_result(pool, amount) matches Ok(fee)
            && compute_fee_from_amount_result(pool, (amount + fee) as u64) matches Ok(contained)
            && contained <= fee
            && (amount + fee) - contained >= amount,
{
    let rate = total_fee_result(pool)->Ok_0;
    lemma_fees_within_amount(pool, amount);
    assert(rate <= MAX_FEE_RATE);
    let fee = gross_up_fee(amount as int, rate as int);
    assert(compute_fee_result(pool, amount) == Ok::<u64, ErrorCode>(fee as u64));
    let d = FEE_PRECISION as int;
    let denominator = d - rate;
    let a = amount as int;
    let r = rate as int;
    lemma_ceil_div_at_most(a, r, denominator);
    vstd::arithmetic::div_mod::lemma_fundamental_div_mod(a * r + denominator - 1, denominator);
    vstd::arithmetic::div_mod::lemma_mod_bound(a * r + denominator - 1, denominator);
    assert(fee * denominator >= a * r) by (nonlinear_arith)
        requires
            a * r + denominator - 1 == denominator * fee + (a * r + denominator - 1) % denominator,
            (a * r + denominator - 1) % denominator < denominator,
            denominator > 0,
    ;
    assert((a + fee) * r <= fee * d) by (nonlinear_arith)
        requires fee * denominator >= a * r, denominator == d - r;
    assert(contained_fee(a + fee, r) <= fee) by {
        assert((a + fee) * r + d - 1 < (fee + 1) * d) by (nonlinear_arith)
            requires (a + fee) * r <= fee * d, d > 0;
        assert(0 <= (a + fee) * r) by (nonlinear_arith) requires a + fee >= 0, r >= 0;
        lemma_quotient_below(((a + fee) * r + d - 1) as int, fee + 1, d);
    }
    assert(0 <= fee <= a);
    let grossed = (amount + fee as u64) as u64;
    assert(grossed as int == a + fee);
    lemma_ceil_div_at_most(grossed as int, r, d);
    assert(compute_fee_from_amount_result(pool, grossed)
        == Ok::<u64, ErrorCode>(contained_fee(a + fee, r) as u64));
}

proof fn lemma_quotient_below(m: int, k: int, d: int)
    requires
        m >= 0,
        d > 0,
        m < k * d,
    ensures
        m / d < k,
{
    vstd::arithmetic::div_mod::lemma_fundamental_div_mod(m, d);
    vstd::arithmetic::div_mod::lemma_mod_pos_bound(m, d);
    assert(m / d < k) by (nonlinear_arith)
        requires m == d * (m / d) + m % d, m % d >= 0, m < k * d, d > 0;
}

/// The volatility reference stays at or below the volatility accumulator
/// across [`update_references`] when the reduction factor is at most 100%.
pub proof fn lemma_reference_within_accumulator(pool: PoolView, current_timestamp: i64)
    requires
        pool.parameters.reduction_factor <= BASIS_POINT_MAX,
        pool.v_parameters.volatility_reference <= pool.v_parameters.volatility_accumulator,
    ensures
        update_references_result(pool, current_timestamp).0.v_parameters.volatility_reference
            <= update_references_result(pool, current_timestamp).0.v_parameters.volatility_accumulator,
{
    let va = pool.v_parameters.volatility_accumulator as int;
    let rf = pool.parameters.reduction_factor as int;
    assert(va * rf <= va * 10000) by (nonlinear_arith) requires va >= 0, rf <= 10000;
    vstd::arithmetic::div_mod::lemma_div_is_ordered(va * rf, va * 10000, 10000);
    vstd::arithmetic::div_mod::lemma_div_multiples_vanish(va, 10000);
    assert(va * 10000 == 10000 * va) by (nonlinear_arith);
}

/// The variable fee never decreases as the volatility accumulator grows.
pub proof fn law_variable_fee_monotonic(pool: PoolView, low: u32, high: u32)
    requires
        low <= high,
    ensures
        variable_fee_result(pool, low) is Ok && variable_fee_result(pool, high) is Ok
            ==> variable_fee_result(pool, low)->Ok_0 <= variable_fee_result(pool, high)->Ok_0,
        variable_fee_result(pool, high) is Ok ==> variable_fee_result(pool, low) is Ok,
{
    if pool.parameters.variable_fee_control > 0 {
        let c = pool.parameters.variable_fee_control as int;
        let s_low = low * pool.bin_step;
        let s_high = high * pool.bin_step;
        assert(0 <= s_low <= s_high) by (nonlinear_arith)
            requires s_low == low * pool.bin_step, s_high == high * pool.bin_step, low <= high, 0 <= low;
        assert(c * (s_low * s_low) <= c * (s_high * s_high)) by (nonlinear_arith)
            requires 0 <= s_low <= s_high, c > 0;
        let n_low = c * (s_low * s_low) + 99_999_999_999;
        let n_high = c * (s_high * s_high) + 99_999_999_999;
        vstd::arithmetic::div_mod::lemma_div_is_ordered(n_low, n_high, 100_000_000_000);
        if n_high <= u128::MAX {
            assert(variable_fee_result(pool, high) == Ok::<u128, ErrorCode>((n_high / 100_000_000_000) as u128));
            assert(variable_fee_result(pool, low) == Ok::<u128, ErrorCode>((n_low / 100_000_000_000) as u128));
            assert(n_low >= 0) by (nonlinear_arith) requires n_low == c * (s_low * s_low) + 99_999_999_999, c > 0;
            vstd::arithmetic::div_mod::lemma_div_pos_is_pos(n_low, 100_000_000_000);
            vstd::arithmetic::div_mod::lemma_div_is_ordered(n_high, u128::MAX as int, 100_000_000_000);
        }
    }
}

/// The once-per-swap reference update. Within the filter period nothing
/// changes. Once it has passed, the reference bin becomes the active bin;
/// within the decay period the volatility reference keeps
/// `reduction_factor` basis points of the accumulator (rounded down), and
/// after it the reference drops to 0. Nothing else in the pool changes.
pub proof fn law_reference_keeps_reduction_share(pool: PoolView, current_timestamp: i64)
    ensures
        update_references_result(pool, current_timestamp).1 is Ok ==> {
            let after = update_references_result(pool, current_timestamp).0;
            let elapsed = current_timestamp - pool.v_parameters.last_update_timestamp;
            let kept = pool.v_parameters.volatility_accumulator * pool.parameters.reduction_factor;
            &&& elapsed < pool.parameters.filter_period ==> after == pool
            &&& elapsed >= pool.parameters.filter_period ==> {
                &&& after.v_parameters.index_reference == pool.active_id
                &&& after.v_parameters.volatility_accumulator == pool.v_parameters.volatility_accumulator
                &&& after.v_parameters.last_update_timestamp == pool.v_parameters.last_update_timestamp
                &&& after.active_id == pool.active_id
                &&& after.bin_step == pool.bin_step
                &&& after.parameters == pool.parameters
                &&& after.has_rewards == pool.has_rewards
            }
            &&& elapsed >= pool.parameters.filter_period && elapsed < pool.parameters.decay_period ==> {
                &&& after.v_parameters.volatility_reference * 10000 <= kept
                &&& kept < (after.v_parameters.volatility_reference + 1) * 10000
            }
            &&& elapsed >= pool.parameters.filter_period && elapsed >= pool.parameters.decay_period
                ==> after.v_parameters.volatility_reference == 0
        },
{
}

/// Within the decay period, a larger reduction factor never leaves a smaller
/// volatility reference: two updates of pools that differ only in
/// `reduction_factor` keep the order of the factors. A factor of
/// `BASIS_POINT_MAX` keeps the whole accumulator and a factor of 0 keeps
/// nothing.
pub proof fn law_reference_monotonic_in_reduction_factor(pool: PoolView, low: u16, high: u16, current_timestamp: i64)
    requires
        low <= high,
    ensures
        ({
            let low_pool = PoolView { parameters: StaticParameters { reduction_factor: low, ..pool.parameters }, ..pool };
            let high_pool = PoolView { parameters: StaticParameters { reduction_factor: high, ..pool.parameters }, ..pool };
            let elapsed = current_timestamp - pool.v_parameters.last_update_timestamp;
            elapsed >= pool.parameters.filter_period && elapsed < pool.parameters.decay_period
                && update_references_result(low_pool, current_timestamp).1 is Ok
                && update_references_result(high_pool, current_timestamp).1 is Ok
                ==> {
                    &&& update_references_result(low_pool, current_timestamp).0.v_parameters.volatility_reference
                        <= update_references_result(high_pool, current_timestamp).0.v_parameters.volatility_reference
                    &&& high == 10000 ==> update_references_result(high_pool, current_timestamp).0.v_parameters.volatility_reference
                        == pool.v_parameters.volatility_accumulator
                    &&& low == 0 ==> update_references_result(low_pool, current_timestamp).0.v_parameters.volatility_reference == 0
                }
        }),
{
    let acc = pool.v_parameters.volatility_accumulator as int;
    assert(acc * low <= acc * high) by (nonlinear_arith) requires acc >= 0, low <= high;
    assert(acc * low >= 0) by (nonlinear_arith) requires acc >= 0, low >= 0;
    lemma_div_is_ordered(acc * low, acc * high, 10000);
    assert(acc * 10000 / 10000 == acc) by {
        lemma_div_multiples_vanish(acc, 10000);
        assert(acc * 10000 == 10000 * acc) by (nonlinear_arith);
    }
    assert(acc * 0 == 0);
}

/// Each bin crossed adds `BASIS_POINT_MAX` to the volatility accumulator
/// up to its cap: at the reference bin the accumulator is the volatility
/// reference (capped), and one bin further from the reference bin it is
/// `BASIS_POINT_MAX` more (capped). It never exceeds the cap.
pub proof fn law_volatility_accumulator_grows_per_bin(pool: PoolView, farther: PoolView)
    requires
        farther == (PoolView { active_id: farther.active_id, ..pool }),
        farther.active_id - pool.v_parameters.index_reference == pool.active_id - pool.v_parameters.index_reference + 1
            && pool.active_id >= pool.v_parameters.index_reference
        || farther.active_id - pool.v_parameters.index_reference == pool.active_id - pool.v_parameters.index_reference - 1
            && pool.active_id <= pool.v_parameters.index_reference,
    ensures
        next_volatility_accumulator(pool) <= pool.parameters.max_volatility_accumulator,
        pool.active_id == pool.v_parameters.index_reference ==> next_volatility_accumulator(pool) == (if pool.v_parameters.volatility_reference
            < pool.parameters.max_volatility_accumulator { pool.v_parameters.volatility_reference } else { pool.parameters.max_volatility_accumulator }),
        next_volatility_accumulator(farther) == (if next_volatility_accumulator(pool) + 10000 < pool.parameters.max_volatility_accumulator {
            next_volatility_accumulator(pool) + 10000
        } else {
            pool.parameters.max_volatility_accumulator as int
        }),
{
}

} // verus!
