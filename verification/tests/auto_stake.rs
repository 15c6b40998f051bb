use oraiswap_staking::asset::{Asset, AssetInfo};
use oraiswap_staking::auto_stake::{
    amount_after_tax, check_staking_token, pair_assets, AutoStakeError, AutoStakePair,
};
use oraiswap_staking::ledger::Ledger;
use oraiswap_staking::query::page_range;
use oraiswap_staking::sorted_map::SortedMap;

fn b(s: &str) -> Vec<u8> {
    s.as_bytes().to_vec()
}

fn coin(amount: u128) -> Asset {
    Asset { info: AssetInfo::NativeToken { denom: b("orai") }, amount }
}

fn token(amount: u128) -> Asset {
    Asset { info: AssetInfo::Token { contract_addr: b("asset") }, amount }
}

#[test]
fn a_pair_is_a_native_coin_and_a_token() {
    let expected =
        AutoStakePair { native_asset: coin(100), token_addr: b("asset"), token_amount: 1 };
    assert_eq!(pair_assets(&coin(100), &token(1)), Ok(expected));
    let expected =
        AutoStakePair { native_asset: coin(100), token_addr: b("asset"), token_amount: 1 };
    assert_eq!(pair_assets(&token(1), &coin(100)), Ok(expected));
    assert_eq!(pair_assets(&coin(100), &coin(100)), Err(AutoStakeError::MissingTokenAsset));
    assert_eq!(pair_assets(&token(1), &token(1)), Err(AutoStakeError::MissingNativeAsset));
    assert_eq!(AutoStakeError::MissingTokenAsset.message(), "Missing token asset");
    assert_eq!(AutoStakeError::MissingNativeAsset.message(), "Missing native asset");
}

#[test]
fn the_pool_has_to_bond_the_token_of_the_pair() {
    let mut ledger = Ledger::new(b("owner"), b("rewarder"));
    ledger.register_pool(b("asset"), b("lp"));
    assert_eq!(check_staking_token(&ledger, &b("asset"), &b("lp")), Ok(()));
    assert_eq!(
        check_staking_token(&ledger, &b("asset"), &b("other-lp")),
        Err(AutoStakeError::InvalidStakingToken)
    );
    assert_eq!(
        check_staking_token(&ledger, &b("asset1"), &b("lp")),
        Err(AutoStakeError::PoolNotFound)
    );
    assert_eq!(AutoStakeError::InvalidStakingToken.message(), "Invalid staking token");
    assert_eq!(AutoStakeError::PoolNotFound.message(), "not found");
}

#[test]
fn the_tax_comes_off_the_native_amount() {
    assert_eq!(amount_after_tax(100, 0), Ok(100));
    assert_eq!(amount_after_tax(100, 3), Ok(97));
    assert_eq!(amount_after_tax(100, 100), Ok(0));
    assert_eq!(amount_after_tax(100, 101), Err(AutoStakeError::TaxExceedsAmount));
    assert_eq!(AutoStakeError::TaxExceedsAmount.message(), "tax exceeds amount");
}

#[test]
fn a_page_is_a_range_of_the_keys() {
    let mut map: SortedMap<u8> = SortedMap::new();
    for key in ["a", "b", "c", "d", "e"] {
        map.insert(b(key), 0);
    }
    assert_eq!(page_range(&map, &None, None, false), (0, 5));
    assert_eq!(page_range(&map, &None, Some(2), false), (0, 2));
    assert_eq!(page_range(&map, &Some(b("b")), Some(2), false), (2, 2));
    assert_eq!(page_range(&map, &Some(b("bb")), Some(9), false), (2, 3));
    assert_eq!(page_range(&map, &Some(b("e")), Some(9), false), (5, 0));
    assert_eq!(page_range(&map, &None, Some(2), true), (4, 2));
    assert_eq!(page_range(&map, &Some(b("c")), Some(9), true), (1, 2));
    assert_eq!(page_range(&map, &Some(b("a")), Some(9), true).1, 0);
    let empty: SortedMap<u8> = SortedMap::new();
    assert_eq!(page_range(&empty, &None, None, false), (0, 0));
    assert_eq!(page_range(&empty, &None, None, true).1, 0);
}
