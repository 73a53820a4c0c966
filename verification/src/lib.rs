//! Deterministic integer swap math for a bin-based dynamic liquidity market
//! maker: bin prices, per-bin swap steps, the dynamic-fee state machine and
//! the multi-bin swap orchestrators. Every function is a pure function of
//! its inputs.
pub mod bin_math;
pub mod dynamic_fee;
pub mod error;
pub mod full_math;
pub mod swap_full;
pub mod swap_laws;
pub mod swap_math;
pub mod u128x128_math;

pub use error::ErrorCode;

pub use bin_math::{get_price_from_id, MAX_BIN_ID, MIN_BIN_ID};

pub use swap_math::{
    get_amount_in, get_amount_out, get_limit_order_amounts_by_direction, get_max_amount_in,
    get_max_amount_out, get_max_amount_out_with_limit_orders, get_or_store_bin_price, BinView,
};

pub use swap_full::{
    compute_swap_full, compute_swap_full_exact_out, swap_exact_in_quote_at_bin,
    swap_exact_out_quote_at_bin, BinQuoteResult, SwapExactInQuote, SwapExactOutQuote,
};

pub use dynamic_fee::{
    advance_active_bin, compute_fee, compute_fee_from_amount, compute_protocol_fee,
    compute_variable_fee, fee_on_input, get_base_fee, get_total_fee, get_variable_fee,
    is_support_limit_order, update_references, update_volatility_accumulator, CollectFeeMode,
    FunctionType, PoolView, StaticParameters, VariableParameters,
};

pub use u128x128_math::Rounding;
