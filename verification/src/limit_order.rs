//! The rules at the door of the limit-order book: who may administer it, and
//! which asset an order pays with.

use crate::asset::Asset;
use crate::bytes::bytes_eq;
use vstd::prelude::*;

verus! {

/// The side of an order.
#[derive(Clone, Copy, Debug, PartialEq, Eq, Structural)]
pub enum OrderDirection {
    Buy,
    Sell,
}

/// Why a call to the order book was refused at the door.
#[derive(Clone, Copy, Debug, PartialEq, Eq, Structural)]
pub enum LimitOrderError {
    /// The sender is not the administrator.
    Unauthorized,
    /// The asset that pays has to be a native coin sent with the call.
    MustProvideNativeToken,
}

impl LimitOrderError {
    /// The message that goes with the failure.
    pub fn message(&self) -> (r: &'static str)
        ensures
            r@ == match *self {
                LimitOrderError::Unauthorized => "Unauthorized"@,
                LimitOrderError::MustProvideNativeToken => "Must provide native token"@,
            },
    {
        match self {
            LimitOrderError::Unauthorized => "Unauthorized",
            LimitOrderError::MustProvideNativeToken => "Must provide native token",
        }
    }
}

/// The asset that the one who submits an order pays: a buyer pays the offer
/// asset, a seller the ask asset.
pub fn paid_asset<'a>(direction: OrderDirection, offer_asset: &'a Asset, ask_asset: &'a Asset) -> (r:
    &'a Asset)
    ensures
        *r == if direction == OrderDirection::Buy {
            *offer_asset
        } else {
            *ask_asset
        },
{
    match direction {
        OrderDirection::Buy => offer_asset,
        OrderDirection::Sell => ask_asset,
    }
}

/// Passes a native coin and refuses a token: a token pays through its own
/// contract.
pub fn assert_native_token(asset: &Asset) -> (r: Result<(), LimitOrderError>)
    ensures
        r == if asset@.info.native {
            Ok::<(), LimitOrderError>(())
        } else {
            Err::<(), LimitOrderError>(LimitOrderError::MustProvideNativeToken)
        },
{
    if asset.info.is_native_token() {
        Ok(())
    } else {
        Err(LimitOrderError::MustProvideNativeToken)
    }
}

/// Passes the administrator and refuses everyone else.
pub fn assert_admin(admin: &Vec<u8>, sender: &Vec<u8>) -> (r: Result<(), LimitOrderError>)
    ensures
        r == if sender@ == admin@ {
            Ok::<(), LimitOrderError>(())
        } else {
            Err::<(), LimitOrderError>(LimitOrderError::Unauthorized)
        },
{
    if bytes_eq(sender, admin) {
        Ok(())
    } else {
        Err(LimitOrderError::Unauthorized)
    }
}

} // verus!
