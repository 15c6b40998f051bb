//! The failures that an operation can report.

use vstd::prelude::*;

verus! {

/// Why an operation was refused. A refused operation changes nothing.
#[derive(Clone, Copy, Debug, PartialEq, Eq, Structural)]
pub enum StakingError {
    /// The sender is not the rewarder or the owner that the operation asks for.
    Unauthorized,
    /// An unbond asks for more than the position holds.
    InsufficientBondAmount,
    /// The pool's staking token was replaced and the position still holds the
    /// old token: it has to be unbonded in full before it can grow again.
    PositionLocked,
    /// No pool, or no position, is kept under the given identity.
    NotFound,
    /// An index ran backwards or an amount left the 128-bit range.
    ArithmeticInvariantViolation,
}

impl StakingError {
    /// The message that goes with the failure.
    pub fn message(&self) -> (r: &'static str)
        ensures
            r@ == match *self {
                StakingError::Unauthorized => "unauthorized"@,
                StakingError::InsufficientBondAmount => "Cannot unbond more than bond amount"@,
                StakingError::PositionLocked =>
                    "The LP token for this asset has been deprecated, withdraw all your deprecated tokens to migrate your position"@,
                StakingError::NotFound => "not found"@,
                StakingError::ArithmeticInvariantViolation => "arithmetic invariant violated"@,
            },
    {
        match self {
            StakingError::Unauthorized => "unauthorized",
            StakingError::InsufficientBondAmount => "Cannot unbond more than bond amount",
            StakingError::PositionLocked =>
                "The LP token for this asset has been deprecated, withdraw all your deprecated tokens to migrate your position",
            StakingError::NotFound => "not found",
            StakingError::ArithmeticInvariantViolation => "arithmetic invariant violated",
        }
    }
}

} // verus!
