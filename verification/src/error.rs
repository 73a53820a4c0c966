//! The error type shared by every fallible operation of the crate.
use vstd::prelude::*;

verus! {

/// Why an operation was refused.
#[derive(Debug, Clone, Copy, PartialEq, Eq, Structural)]
pub enum ErrorCode {
    /// An intermediate or final value does not fit its integer type.
    MathOverflow,
    /// A bin id lies outside `[MIN_BIN_ID, MAX_BIN_ID]`.
    BinIdOutOfBounds,
    /// Advancing the active bin would leave `[MIN_BIN_ID, MAX_BIN_ID]`.
    InsufficientLiquidity,
    /// A swap walked past the last bin the caller supplied.
    PoolOutOfLiquidity,
    /// A flag byte does not name any variant of its enum.
    InvalidParameter,
}

/// The result of a fallible operation of the crate.
pub type Result<T> = core::result::Result<T, ErrorCode>;

impl ErrorCode {
    /// Stable, human-readable reason for the error.
    pub fn reason(self) -> (s: &'static str)
        ensures
            self == ErrorCode::MathOverflow ==> s@ == "arithmetic overflow"@,
            self == ErrorCode::BinIdOutOfBounds ==> s@ == "bin_id out of [MIN_BIN_ID, MAX_BIN_ID]"@,
            self == ErrorCode::InsufficientLiquidity ==> s@ == "insufficient liquidity"@,
            self == ErrorCode::PoolOutOfLiquidity ==> s@ == "pool out of liquidity"@,
            self == ErrorCode::InvalidParameter ==> s@ == "invalid parameter"@,
    {
        match self {
            ErrorCode::MathOverflow => "arithmetic overflow",
            ErrorCode::BinIdOutOfBounds => "bin_id out of [MIN_BIN_ID, MAX_BIN_ID]",
            ErrorCode::InsufficientLiquidity => "insufficient liquidity",
            ErrorCode::PoolOutOfLiquidity => "pool out of liquidity",
            ErrorCode::InvalidParameter => "invalid parameter",
        }
    }
}

} // verus!
