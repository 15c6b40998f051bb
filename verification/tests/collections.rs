use oraiswap_staking::amount::{has_cw20_prefix, Amount, AmountOverflow, Coin, Cw20Coin};
use oraiswap_staking::asset::AssetInfo;
use oraiswap_staking::bytes::{bytes_eq, compare_bytes, copy_bytes, KeyOrder};
use oraiswap_staking::error::StakingError;
use oraiswap_staking::ledger::Ledger;
use oraiswap_staking::sorted_map::SortedMap;

fn k(s: &str) -> Vec<u8> {
    s.as_bytes().to_vec()
}

#[test]
fn bytes_compare_lexicographically() {
    assert_eq!(compare_bytes(&k(""), &k("")), KeyOrder::Same);
    assert_eq!(compare_bytes(&k(""), &k("a")), KeyOrder::Before);
    assert_eq!(compare_bytes(&k("a"), &k("")), KeyOrder::After);
    assert_eq!(compare_bytes(&k("ab"), &k("abc")), KeyOrder::Before);
    assert_eq!(compare_bytes(&k("abd"), &k("abc")), KeyOrder::After);
    assert_eq!(compare_bytes(&k("b"), &k("abc")), KeyOrder::After);
    assert_eq!(compare_bytes(&vec![0xff], &vec![0x01, 0x02]), KeyOrder::After);
    assert_eq!(compare_bytes(&k("abc"), &k("abc")), KeyOrder::Same);
    assert!(bytes_eq(&k("abc"), &k("abc")));
    assert!(!bytes_eq(&k("abc"), &k("abd")));
    assert!(!bytes_eq(&k("abc"), &k("ab")));
    assert_eq!(copy_bytes(&k("abc")), k("abc"));
}

#[test]
fn a_sorted_map_keeps_its_keys_in_order() {
    let mut map: SortedMap<u8> = SortedMap::new();
    assert_eq!(map.len(), 0);
    map.insert(k("m"), 1);
    map.insert(k("a"), 2);
    map.insert(k("z"), 3);
    map.insert(k("mm"), 4);
    map.insert(k("m"), 5);
    let keys: Vec<Vec<u8>> = (0..map.len()).map(|i| map.key_at(i).clone()).collect();
    assert_eq!(keys, vec![k("a"), k("m"), k("mm"), k("z")]);
    assert_eq!(*map.value_at(1), 5);
    assert_eq!(map.get(&k("m")), Some(&5));
    assert_eq!(map.get(&k("b")), None);
    assert_eq!(map.find(&k("b")), (1, false));
    assert_eq!(map.find(&k("mm")), (2, true));
    assert_eq!(map.find(&k("zz")), (4, false));
    assert!(map.contains(&k("z")));
    assert!(map.is_sorted());

    assert_eq!(map.remove(&k("m")), Some(5));
    assert_eq!(map.remove(&k("m")), None);
    assert_eq!(map.len(), 3);
    let mut other = 9u8;
    map.swap_value_at(0, &mut other);
    assert_eq!(other, 2);
    assert_eq!(map.get(&k("a")), Some(&9));
}

#[test]
fn a_map_out_of_order_is_found_out() {
    let map = SortedMap { entries: vec![(k("b"), 1u8), (k("a"), 2u8)] };
    assert!(!map.is_sorted());
    let map = SortedMap { entries: vec![(k("a"), 1u8), (k("a"), 2u8)] };
    assert!(!map.is_sorted());

    let mut ledger = Ledger::new(k("owner"), k("rewarder"));
    ledger.register_pool(k("p"), k("lp"));
    assert!(!ledger.register_pool(k("p"), k("other-lp")));
    assert!(ledger.is_well_formed());
    ledger.pools.entries[0].1.migrated.entries = vec![(k("b"), ()), (k("a"), ())];
    assert!(!ledger.is_well_formed());
}

#[test]
fn an_asset_is_its_kind_and_its_bytes() {
    let native = AssetInfo::NativeToken { denom: k("x") };
    let token = AssetInfo::Token { contract_addr: k("x") };
    assert!(native.is_native_token());
    assert!(!token.is_native_token());
    assert_eq!(native.to_vec(), k("x"));
    assert_eq!(token.to_vec(), k("x"));
    assert!(native.equal(&native.clone()));
    assert!(!native.equal(&token));
    assert!(!token.equal(&AssetInfo::Token { contract_addr: k("y") }));
    assert_eq!(AssetInfo::from_key(true, k("x")), native);
    assert_eq!(AssetInfo::from_key(false, k("x")), token);
}

#[test]
fn only_the_owner_and_the_rewarder_pass() {
    let ledger = Ledger::new(k("owner"), k("rewarder"));
    assert_eq!(ledger.authorize_owner(&k("owner")), Ok(()));
    assert_eq!(ledger.authorize_owner(&k("rewarder")), Err(StakingError::Unauthorized));
    assert_eq!(ledger.authorize_rewarder(&k("rewarder")), Ok(()));
    assert_eq!(ledger.authorize_rewarder(&k("owner")), Err(StakingError::Unauthorized));
}

#[test]
fn every_error_has_its_message() {
    assert_eq!(StakingError::Unauthorized.message(), "unauthorized");
    assert_eq!(
        StakingError::InsufficientBondAmount.message(),
        "Cannot unbond more than bond amount"
    );
    assert_eq!(StakingError::NotFound.message(), "not found");
    assert_eq!(
        StakingError::ArithmeticInvariantViolation.message(),
        "arithmetic invariant violated"
    );
}

#[test]
fn amounts_are_told_apart_by_the_prefix() {
    assert!(has_cw20_prefix("cw20:"));
    assert!(has_cw20_prefix("cw20:abc"));
    assert!(!has_cw20_prefix("cw20"));
    assert!(!has_cw20_prefix("cw21:abc"));
    assert!(!has_cw20_prefix("xcw20:abc"));
    assert!(!has_cw20_prefix(""));

    assert_eq!(
        Amount::from_parts("cw20:".to_string(), 3),
        Amount::Cw20(Cw20Coin { address: "".to_string(), amount: 3 })
    );
    assert_eq!(
        Amount::from_parts("cw2".to_string(), 3),
        Amount::Native(Coin { denom: "cw2".to_string(), amount: 3 })
    );
    assert_eq!(
        Amount::from_parts("cw20:überweisung".to_string(), 3),
        Amount::cw20(3, "überweisung")
    );
    assert_eq!(Amount::from_parts("ücw20:x".to_string(), 3), Amount::native(3, "ücw20:x"));
    assert_eq!(Amount::cw20(3, "überweisung").denom(), "cw20:überweisung");
}

#[test]
fn amounts_convert_to_64_bits_where_they_fit() {
    assert_eq!(Amount::native(0, "u").u64_amount(), Ok(0));
    assert_eq!(Amount::cw20(u64::MAX as u128, "c").u64_amount(), Ok(u64::MAX));
    assert_eq!(Amount::native(u64::MAX as u128 + 1, "u").u64_amount(), Err(AmountOverflow));
    assert_eq!(Amount::cw20(u128::MAX, "c").u64_amount(), Err(AmountOverflow));
    assert!(Amount::native(0, "u").is_empty());
    assert!(Amount::cw20(0, "c").is_empty());
    assert!(!Amount::native(1, "u").is_empty());
    assert!(!Amount::cw20(1, "c").is_empty());
    assert_eq!(Amount::native(5, "u").amount(), 5);
    assert_eq!(Amount::native(5, "u").denom(), "u");
}
