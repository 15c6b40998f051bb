use oraiswap_staking::asset::{Asset, AssetInfo};
use oraiswap_staking::error::StakingError;
use oraiswap_staking::fixed_point::DECIMAL_FRACTIONAL;
use oraiswap_staking::ledger::Ledger;
use oraiswap_staking::query::{
    query_all_reward_infos, query_pool_info, query_reward_info, OrderBy, RewardInfoResponse,
    RewardInfoResponseItem,
};
use oraiswap_staking::rewards::{deposit_reward, withdraw_reward_others};
use oraiswap_staking::staking::bond;

fn key(s: &str) -> Vec<u8> {
    s.as_bytes().to_vec()
}

fn pool_asset() -> AssetInfo {
    AssetInfo::NativeToken { denom: key("uatom") }
}

fn with_stakers(names: &[&str]) -> Ledger {
    let mut ledger = Ledger::new(key("owner"), key("rewarder"));
    ledger.register_pool(key("uatom"), key("lp"));
    for (i, name) in names.iter().enumerate() {
        bond(&mut ledger, &key(name), &pool_asset(), (i as u128) + 1).unwrap();
    }
    ledger
}

fn page(
    ledger: &Ledger,
    start_after: Option<&str>,
    limit: Option<u32>,
    order: Option<OrderBy>,
) -> Vec<String> {
    query_all_reward_infos(ledger, &pool_asset(), &start_after.map(key), limit, order)
        .unwrap()
        .into_iter()
        .map(|r| String::from_utf8(r.staker_addr).unwrap())
        .collect()
}

#[test]
fn stakers_are_listed_in_ascending_order_by_default() {
    let ledger = with_stakers(&["d", "b", "e", "a", "c"]);
    assert_eq!(page(&ledger, None, None, None), vec!["a", "b", "c", "d", "e"]);
    assert_eq!(page(&ledger, None, Some(2), Some(OrderBy::Ascending)), vec!["a", "b"]);
    assert_eq!(page(&ledger, Some("b"), Some(2), None), vec!["c", "d"]);
    assert_eq!(page(&ledger, Some("d"), Some(2), None), vec!["e"]);
    assert_eq!(page(&ledger, Some("e"), Some(2), None), Vec::<String>::new());
    // a cursor that is no staker
    assert_eq!(page(&ledger, Some("bb"), Some(1), None), vec!["c"]);
    assert_eq!(page(&ledger, Some(""), Some(1), None), vec!["a"]);
    assert_eq!(page(&ledger, None, Some(0), None), Vec::<String>::new());
}

#[test]
fn stakers_are_listed_in_descending_order_on_request() {
    let ledger = with_stakers(&["d", "b", "e", "a", "c"]);
    assert_eq!(page(&ledger, None, None, Some(OrderBy::Descending)), vec!["e", "d", "c", "b", "a"]);
    assert_eq!(page(&ledger, None, Some(2), Some(OrderBy::Descending)), vec!["e", "d"]);
    assert_eq!(page(&ledger, Some("d"), Some(2), Some(OrderBy::Descending)), vec!["c", "b"]);
    assert_eq!(page(&ledger, Some("b"), Some(2), Some(OrderBy::Descending)), vec!["a"]);
    assert_eq!(page(&ledger, Some("a"), Some(2), Some(OrderBy::Descending)), Vec::<String>::new());
    assert_eq!(page(&ledger, Some("bb"), Some(1), Some(OrderBy::Descending)), vec!["b"]);
}

#[test]
fn pages_have_ten_stakers_by_default_and_thirty_at_most() {
    let names: Vec<String> = (0..35).map(|i| format!("staker{:02}", i)).collect();
    let refs: Vec<&str> = names.iter().map(|s| s.as_str()).collect();
    let ledger = with_stakers(&refs);
    assert_eq!(page(&ledger, None, None, None), names[..10].to_vec());
    assert_eq!(page(&ledger, None, Some(100), None), names[..30].to_vec());
    assert_eq!(page(&ledger, None, Some(30), None).len(), 30);
    assert_eq!(page(&ledger, None, Some(29), None).len(), 29);
    assert_eq!(page(&ledger, Some("staker29"), Some(100), None), names[30..].to_vec());
    let mut backwards = names.clone();
    backwards.reverse();
    assert_eq!(page(&ledger, None, Some(31), Some(OrderBy::Descending)), backwards[..30].to_vec());
}

#[test]
fn a_page_reports_what_each_staker_holds() {
    let mut ledger = with_stakers(&["a", "b"]);
    deposit_reward(
        &mut ledger,
        &key("rewarder"),
        &vec![Asset { info: pool_asset(), amount: 30 }],
    )
    .unwrap();
    let responses = query_all_reward_infos(&ledger, &pool_asset(), &None, None, None).unwrap();
    assert_eq!(
        responses,
        vec![
            RewardInfoResponse {
                staker_addr: key("a"),
                reward_infos: vec![RewardInfoResponseItem {
                    asset_info: pool_asset(),
                    bond_amount: 1,
                    pending_reward: 10,
                    pending_withdraw: vec![],
                    should_migrate: None,
                }],
            },
            RewardInfoResponse {
                staker_addr: key("b"),
                reward_infos: vec![RewardInfoResponseItem {
                    asset_info: pool_asset(),
                    bond_amount: 2,
                    pending_reward: 20,
                    pending_withdraw: vec![],
                    should_migrate: None,
                }],
            },
        ]
    );
}

#[test]
fn an_asset_without_a_pool_has_no_stakers() {
    let ledger = with_stakers(&["a"]);
    let other = AssetInfo::Token { contract_addr: key("other") };
    assert_eq!(query_all_reward_infos(&ledger, &other, &None, None, None), Ok(vec![]));
    assert_eq!(query_pool_info(&ledger, &other), Err(StakingError::NotFound));
    assert_eq!(
        query_reward_info(&ledger, &key("a"), &Some(other)),
        Ok(RewardInfoResponse { staker_addr: key("a"), reward_infos: vec![] })
    );
}

#[test]
fn a_query_changes_nothing_and_reports_the_settled_reward() {
    let mut ledger = with_stakers(&["a"]);
    ledger
        .set_reward_weights(
            &key("uatom"),
            vec![Asset { info: AssetInfo::NativeToken { denom: key("x") }, amount: 1 }],
        )
        .unwrap();
    deposit_reward(&mut ledger, &key("rewarder"), &vec![Asset { info: pool_asset(), amount: 5 }])
        .unwrap();
    withdraw_reward_others(&mut ledger, &key("owner"), &vec![key("a")], &None).unwrap();
    deposit_reward(&mut ledger, &key("rewarder"), &vec![Asset { info: pool_asset(), amount: 7 }])
        .unwrap();
    let before = ledger.clone();
    let info = query_reward_info(&ledger, &key("a"), &None).unwrap();
    assert_eq!(
        info.reward_infos,
        vec![RewardInfoResponseItem {
            asset_info: pool_asset(),
            bond_amount: 1,
            pending_reward: 7,
            pending_withdraw: vec![Asset {
                info: AssetInfo::NativeToken { denom: key("x") },
                amount: 5
            }],
            should_migrate: None,
        }]
    );
    assert_eq!(ledger, before);
    assert_eq!(
        ledger.pools.get(&key("uatom")).unwrap().positions.get(&key("a")).unwrap().index,
        5 * DECIMAL_FRACTIONAL
    );
}

#[test]
fn a_query_over_all_pools_names_each_asset_by_its_kind() {
    let mut ledger = with_stakers(&["a"]);
    ledger.register_pool(key("contract"), key("lp2"));
    bond(&mut ledger, &key("a"), &AssetInfo::Token { contract_addr: key("contract") }, 9).unwrap();
    let info = query_reward_info(&ledger, &key("a"), &None).unwrap();
    let assets: Vec<AssetInfo> = info.reward_infos.into_iter().map(|i| i.asset_info).collect();
    assert_eq!(assets, vec![AssetInfo::Token { contract_addr: key("contract") }, pool_asset()]);
}

#[test]
fn a_query_reports_a_position_that_cannot_be_settled() {
    let mut ledger = with_stakers(&["a", "b"]);
    ledger.pools.entries[0].1.positions.entries[1].1.index = 1;
    assert!(query_reward_info(&ledger, &key("a"), &None).is_ok());
    assert_eq!(
        query_reward_info(&ledger, &key("b"), &None),
        Err(StakingError::ArithmeticInvariantViolation)
    );
    assert_eq!(
        query_reward_info(&ledger, &key("b"), &Some(pool_asset())),
        Err(StakingError::ArithmeticInvariantViolation)
    );
    assert_eq!(
        query_all_reward_infos(&ledger, &pool_asset(), &None, None, None),
        Err(StakingError::ArithmeticInvariantViolation)
    );
    assert!(query_all_reward_infos(&ledger, &pool_asset(), &None, Some(1), None).is_ok());
}
