use oraiswap_staking::asset::{Asset, AssetInfo};
use oraiswap_staking::limit_order::{
    assert_admin, assert_native_token, paid_asset, LimitOrderError, OrderDirection,
};

fn usdt() -> Asset {
    Asset { info: AssetInfo::Token { contract_addr: b"usdt".to_vec() }, amount: 10 }
}

fn orai() -> Asset {
    Asset { info: AssetInfo::NativeToken { denom: b"orai".to_vec() }, amount: 3 }
}

#[test]
fn a_buyer_pays_the_offer_and_a_seller_the_ask() {
    assert_eq!(paid_asset(OrderDirection::Buy, &usdt(), &orai()), &usdt());
    assert_eq!(paid_asset(OrderDirection::Sell, &usdt(), &orai()), &orai());
}

#[test]
fn only_a_native_coin_pays_at_the_door() {
    assert_eq!(assert_native_token(&orai()), Ok(()));
    assert_eq!(assert_native_token(&usdt()), Err(LimitOrderError::MustProvideNativeToken));
    assert_eq!(LimitOrderError::MustProvideNativeToken.message(), "Must provide native token");
}

#[test]
fn only_the_admin_administers() {
    assert_eq!(assert_admin(&b"admin".to_vec(), &b"admin".to_vec()), Ok(()));
    assert_eq!(
        assert_admin(&b"admin".to_vec(), &b"adminx".to_vec()),
        Err(LimitOrderError::Unauthorized)
    );
    assert_eq!(LimitOrderError::Unauthorized.message(), "Unauthorized");
}
