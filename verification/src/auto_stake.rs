//! The decisions of auto-staking: a staker hands in a native coin and a
//! token, liquidity is provided with them, and the liquidity token that comes
//! back is bonded for the staker.

use crate::asset::{Asset, AssetInfoView, AssetView};
use crate::bytes::bytes_eq;
use crate::ledger::{Ledger, LedgerView};
use vstd::prelude::*;

verus! {

/// Why auto-staking was refused.
#[derive(Clone, Copy, Debug, PartialEq, Eq, Structural)]
pub enum AutoStakeError {
    /// Neither of the two assets is a native coin.
    MissingNativeAsset,
    /// Neither of the two assets is a token.
    MissingTokenAsset,
    /// The token has no pool.
    PoolNotFound,
    /// The pool of the token bonds another token than the pair gives out.
    InvalidStakingToken,
    /// The tax exceeds the native amount.
    TaxExceedsAmount,
}

impl AutoStakeError {
    /// The message that goes with the failure.
    pub fn message(&self) -> (r: &'static str)
        ensures
            r@ == match *self {
                AutoStakeError::MissingNativeAsset => "Missing native asset"@,
                AutoStakeError::MissingTokenAsset => "Missing token asset"@,
                AutoStakeError::PoolNotFound => "not found"@,
                AutoStakeError::InvalidStakingToken => "Invalid staking token"@,
                AutoStakeError::TaxExceedsAmount => "tax exceeds amount"@,
            },
    {
        match self {
            AutoStakeError::MissingNativeAsset => "Missing native asset",
            AutoStakeError::MissingTokenAsset => "Missing token asset",
            AutoStakeError::PoolNotFound => "not found",
            AutoStakeError::InvalidStakingToken => "Invalid staking token",
            AutoStakeError::TaxExceedsAmount => "tax exceeds amount",
        }
    }
}

/// The native coin and the token that liquidity is provided with.
#[derive(Debug, PartialEq, Eq)]
pub struct AutoStakePair {
    pub native_asset: Asset,
    pub token_addr: Vec<u8>,
    pub token_amount: u128,
}

/// The model of the two sides of a pair.
pub struct PairView {
    pub native_asset: AssetView,
    pub token: AssetView,
}

impl View for AutoStakePair {
    type V = PairView;

    open spec fn view(&self) -> PairView {
        PairView {
            native_asset: self.native_asset@,
            token: AssetView {
                info: AssetInfoView { native: false, id: self.token_addr@ },
                amount: self.token_amount as nat,
            },
        }
    }
}

/// The two sides of the pair that `first` and `second` make up: one has to
/// be a native coin and the other a token.
pub open spec fn paired(first: AssetView, second: AssetView) -> Result<PairView, AutoStakeError> {
    if !first.info.native && !second.info.native {
        Err(AutoStakeError::MissingNativeAsset)
    } else if first.info.native && second.info.native {
        Err(AutoStakeError::MissingTokenAsset)
    } else if first.info.native {
        Ok(PairView { native_asset: first, token: second })
    } else {
        Ok(PairView { native_asset: second, token: first })
    }
}

/// Tells the native coin from the token.
pub fn pair_assets(first: &Asset, second: &Asset) -> (r: Result<AutoStakePair, AutoStakeError>)
    ensures
        match r {
            Ok(pair) => paired(first@, second@) == Ok::<PairView, AutoStakeError>(pair@),
            Err(e) => paired(first@, second@) == Err::<PairView, AutoStakeError>(e),
        },
{
    let first_native = first.info.is_native_token();
    let second_native = second.info.is_native_token();
    if !first_native && !second_native {
        Err(AutoStakeError::MissingNativeAsset)
    } else if first_native && second_native {
        Err(AutoStakeError::MissingTokenAsset)
    } else if first_native {
        Ok(
            AutoStakePair {
                native_asset: first.clone(),
                token_addr: second.info.to_vec(),
                token_amount: second.amount,
            },
        )
    } else {
        Ok(
            AutoStakePair {
                native_asset: second.clone(),
                token_addr: first.info.to_vec(),
                token_amount: first.amount,
            },
        )
    }
}

impl LedgerView {
    /// Whether the pool of the token at `token_addr` bonds `liquidity_token`.
    pub open spec fn stakes_liquidity_of(self, token_addr: Seq<u8>, liquidity_token: Seq<u8>)
        -> Result<(), AutoStakeError> {
        match self.pool(token_addr) {
            None => Err(AutoStakeError::PoolNotFound),
            Some(pool) => if pool.account.staking_token == liquidity_token {
                Ok(())
            } else {
                Err(AutoStakeError::InvalidStakingToken)
            },
        }
    }
}

/// Checks that the pool of the token at `token_addr` bonds the liquidity
/// token that the pair gives out.
pub fn check_staking_token(ledger: &Ledger, token_addr: &Vec<u8>, liquidity_token: &Vec<u8>) -> (r:
    Result<(), AutoStakeError>)
    ensures
        r == ledger@.stakes_liquidity_of(token_addr@, liquidity_token@),
{
    match ledger.pools.get(token_addr) {
        None => Err(AutoStakeError::PoolNotFound),
        Some(pool) => if bytes_eq(&pool.account.staking_token, liquidity_token) {
            Ok(())
        } else {
            Err(AutoStakeError::InvalidStakingToken)
        },
    }
}

/// The native amount that goes into the pair once the tax is taken off.
pub fn amount_after_tax(amount: u128, tax_amount: u128) -> (r: Result<u128, AutoStakeError>)
    ensures
        r == if tax_amount <= amount {
            Ok::<u128, AutoStakeError>((amount - tax_amount) as u128)
        } else {
            Err::<u128, AutoStakeError>(AutoStakeError::TaxExceedsAmount)
        },
{
    match amount.checked_sub(tax_amount) {
        Some(left) => Ok(left),
        None => Err(AutoStakeError::TaxExceedsAmount),
    }
}

} // verus!
