use oraiswap_staking::asset::{merge_assets, update_reward_assets_amount, Asset, AssetInfo};
use oraiswap_staking::error::StakingError;
use oraiswap_staking::fixed_point::DECIMAL_FRACTIONAL;
use oraiswap_staking::ledger::{Ledger, PaymentInstruction};
use oraiswap_staking::pool::PoolAccount;
use oraiswap_staking::position::{before_share_change, sum_weights, StakerPosition};
use oraiswap_staking::query::{query_pool_info, query_reward_info};
use oraiswap_staking::rewards::{
    deposit_reward, process_reward_assets, withdraw_reward, withdraw_reward_others,
};
use oraiswap_staking::staking::{bond, unbond};

fn id(s: &str) -> Vec<u8> {
    s.as_bytes().to_vec()
}

fn token(s: &str) -> AssetInfo {
    AssetInfo::Token { contract_addr: id(s) }
}

fn native(s: &str) -> AssetInfo {
    AssetInfo::NativeToken { denom: id(s) }
}

fn asset(info: AssetInfo, amount: u128) -> Asset {
    Asset { info, amount }
}

fn position(bond_amount: u128, index: u128, pending_reward: u128) -> StakerPosition {
    StakerPosition { native_token: false, index, bond_amount, pending_reward, pending_withdraw: vec![] }
}

fn two_pools() -> Ledger {
    let mut ledger = Ledger::new(id("owner"), id("rewarder"));
    assert!(ledger.register_pool(id("b-pool"), id("lp-b")));
    assert!(ledger.register_pool(id("a-pool"), id("lp-a")));
    ledger.set_reward_weights(&id("a-pool"), vec![asset(native("x"), 1), asset(native("y"), 3)]).unwrap();
    ledger.set_reward_weights(&id("b-pool"), vec![asset(native("y"), 1), asset(native("z"), 1)]).unwrap();
    ledger
}

#[test]
fn settlement_moves_the_accrued_reward() {
    let mut p = position(100, 0, 7);
    before_share_change(4 * DECIMAL_FRACTIONAL, &mut p).unwrap();
    assert_eq!(p, position(100, 4 * DECIMAL_FRACTIONAL, 407));
}

#[test]
fn settlement_twice_changes_nothing_the_second_time() {
    let mut p = position(123, DECIMAL_FRACTIONAL / 3, 5);
    before_share_change(7 * DECIMAL_FRACTIONAL / 2, &mut p).unwrap();
    let once = p.clone();
    before_share_change(7 * DECIMAL_FRACTIONAL / 2, &mut p).unwrap();
    assert_eq!(p, once);
}

#[test]
fn settlement_takes_the_difference_of_the_rounded_products() {
    // 10 * 0.25 = 2.5 -> 2 and 10 * 0.55 = 5.5 -> 5
    let mut p = position(10, DECIMAL_FRACTIONAL / 4, 0);
    before_share_change(55 * DECIMAL_FRACTIONAL / 100, &mut p).unwrap();
    assert_eq!(p.pending_reward, 3);
}

#[test]
fn settlement_against_a_lower_index_is_refused() {
    let mut p = position(0, 5, 0);
    let before = p.clone();
    assert_eq!(before_share_change(4, &mut p), Err(StakingError::ArithmeticInvariantViolation));
    assert_eq!(p, before);
}

#[test]
fn settlement_that_overflows_is_refused() {
    let mut p = position(u128::MAX, 0, 0);
    let before = p.clone();
    assert_eq!(
        before_share_change(2 * DECIMAL_FRACTIONAL, &mut p),
        Err(StakingError::ArithmeticInvariantViolation)
    );
    assert_eq!(p, before);

    let mut p = position(10, 0, u128::MAX - 5);
    let before = p.clone();
    assert_eq!(
        before_share_change(DECIMAL_FRACTIONAL, &mut p),
        Err(StakingError::ArithmeticInvariantViolation)
    );
    assert_eq!(p, before);

    // the largest bond settles against the index one
    let mut p = position(u128::MAX, 0, 0);
    before_share_change(DECIMAL_FRACTIONAL, &mut p).unwrap();
    assert_eq!(p.pending_reward, u128::MAX);
}

#[test]
fn deposit_divides_by_the_bonded_total_and_rounds_down() {
    let mut account = PoolAccount::new(id("lp"));
    account.total_bond_amount = 3;
    account.deposit(1).unwrap();
    assert_eq!(account.reward_index, 333_333_333_333_333_333);
    assert_eq!(account.pending_reward, 0);
    account.deposit(2).unwrap();
    assert_eq!(account.reward_index, 333_333_333_333_333_333 + 666_666_666_666_666_666);

    // three bonded units earn nothing from the first deposit: the remainder is gone
    let mut p = position(3, 0, 0);
    before_share_change(333_333_333_333_333_333, &mut p).unwrap();
    assert_eq!(p.pending_reward, 0);
}

#[test]
fn deposit_that_overflows_is_refused() {
    let mut account = PoolAccount::new(id("lp"));
    account.pending_reward = u128::MAX;
    let before = account.clone();
    assert_eq!(account.deposit(1), Err(StakingError::ArithmeticInvariantViolation));
    assert_eq!(account, before);

    let mut account = PoolAccount::new(id("lp"));
    account.total_bond_amount = 1;
    let before = account.clone();
    // u128::MAX whole units do not fit into an index with eighteen decimals
    assert_eq!(account.deposit(u128::MAX), Err(StakingError::ArithmeticInvariantViolation));
    assert_eq!(account, before);

    let mut account = PoolAccount::new(id("lp"));
    account.total_bond_amount = 1;
    account.reward_index = u128::MAX;
    let before = account.clone();
    assert_eq!(account.deposit(1), Err(StakingError::ArithmeticInvariantViolation));
    assert_eq!(account, before);
}

#[test]
fn index_never_goes_down_over_deposits() {
    let mut account = PoolAccount::new(id("lp"));
    let mut last = account.reward_index;
    for (bonded, amount) in [(0u128, 5u128), (7, 0), (7, 1), (1000, 3), (0, 9), (2, 1), (9, 1_000_000)] {
        account.total_bond_amount = bonded;
        account.deposit(amount).unwrap();
        assert!(account.reward_index >= last);
        last = account.reward_index;
    }
}

#[test]
fn pending_reward_is_split_by_weight() {
    let mut p = position(0, 0, 300);
    p.convert_pending(&vec![asset(native("orai"), 100), asset(native("atom"), 200)]).unwrap();
    assert_eq!(p.pending_reward, 0);
    assert_eq!(p.pending_withdraw, vec![asset(native("orai"), 100), asset(native("atom"), 200)]);
}

#[test]
fn split_rounds_each_share_down() {
    let mut p = position(0, 0, 10);
    p.convert_pending(&vec![asset(native("x"), 1), asset(native("y"), 2)]).unwrap();
    assert_eq!(p.pending_reward, 0);
    assert_eq!(p.pending_withdraw, vec![asset(native("x"), 3), asset(native("y"), 6)]);
}

#[test]
fn split_merges_into_entries_that_are_there() {
    let mut p = position(0, 0, 8);
    p.pending_withdraw = vec![asset(native("y"), 5), asset(token("t"), 1)];
    p.convert_pending(&vec![
        asset(native("x"), 1),
        asset(native("y"), 2),
        asset(native("zero"), 0),
        asset(native("x"), 1),
    ])
    .unwrap();
    assert_eq!(
        p.pending_withdraw,
        vec![asset(native("y"), 9), asset(token("t"), 1), asset(native("x"), 4)]
    );
}

#[test]
fn split_tells_native_from_token() {
    let mut p = position(0, 0, 4);
    p.convert_pending(&vec![asset(native("same"), 1), asset(token("same"), 1)]).unwrap();
    assert_eq!(p.pending_withdraw, vec![asset(native("same"), 2), asset(token("same"), 2)]);
}

#[test]
fn split_waits_for_weights() {
    let mut p = position(0, 0, 10);
    p.convert_pending(&vec![]).unwrap();
    assert_eq!(p, position(0, 0, 10));
    p.convert_pending(&vec![asset(native("x"), 0)]).unwrap();
    assert_eq!(p, position(0, 0, 10));
}

#[test]
fn split_that_overflows_is_refused() {
    let mut p = position(0, 0, 10);
    p.pending_withdraw = vec![asset(native("x"), u128::MAX - 4)];
    let before = p.clone();
    assert_eq!(
        p.convert_pending(&vec![asset(native("y"), 1), asset(native("x"), 1)]),
        Err(StakingError::ArithmeticInvariantViolation)
    );
    assert_eq!(p, before);

    let mut p = position(0, 0, 10);
    assert_eq!(
        p.convert_pending(&vec![asset(native("y"), u128::MAX), asset(native("x"), 1)]),
        Err(StakingError::ArithmeticInvariantViolation)
    );
    assert_eq!(p, position(0, 0, 10));

    // nothing pending: the weights are not even added up
    let mut p = position(0, 0, 0);
    p.convert_pending(&vec![asset(native("y"), u128::MAX), asset(native("x"), 1)]).unwrap();
}

#[test]
fn weights_add_up() {
    assert_eq!(sum_weights(&vec![]), Some(0));
    assert_eq!(sum_weights(&vec![asset(native("x"), 1), asset(native("y"), 41)]), Some(42));
    assert_eq!(sum_weights(&vec![asset(native("x"), u128::MAX), asset(native("y"), 1)]), None);
}

#[test]
fn merging_adds_or_appends() {
    let mut list = vec![asset(native("x"), 1)];
    update_reward_assets_amount(&mut list, &asset(native("y"), 0), 2).unwrap();
    update_reward_assets_amount(&mut list, &asset(native("x"), 0), 3).unwrap();
    assert_eq!(list, vec![asset(native("x"), 4), asset(native("y"), 2)]);
    assert_eq!(
        update_reward_assets_amount(&mut list, &asset(native("x"), 0), u128::MAX),
        Err(StakingError::ArithmeticInvariantViolation)
    );
    assert_eq!(list, vec![asset(native("x"), 4), asset(native("y"), 2)]);

    let mut acc = vec![asset(native("y"), 1)];
    merge_assets(&mut acc, &list).unwrap();
    assert_eq!(acc, vec![asset(native("y"), 3), asset(native("x"), 4)]);
    assert_eq!(
        merge_assets(&mut acc, &vec![asset(native("z"), 1), asset(native("x"), u128::MAX)]),
        Err(StakingError::ArithmeticInvariantViolation)
    );
    assert_eq!(acc, vec![asset(native("y"), 3), asset(native("x"), 4)]);
}

#[test]
fn process_without_withdraw_keeps_what_is_owed() {
    let mut p = position(5, 0, 0);
    let paid = p.process(2 * DECIMAL_FRACTIONAL, &vec![asset(native("x"), 1)], false).unwrap();
    assert_eq!(paid, vec![]);
    assert_eq!(p.pending_withdraw, vec![asset(native("x"), 10)]);
    assert_eq!(p.pending_reward, 0);
    assert_eq!(p.index, 2 * DECIMAL_FRACTIONAL);

    let paid = p.process(3 * DECIMAL_FRACTIONAL, &vec![asset(native("x"), 1)], true).unwrap();
    assert_eq!(paid, vec![asset(native("x"), 15)]);
    assert!(p.pending_withdraw.is_empty());
}

#[test]
fn process_that_fails_changes_nothing() {
    let mut p = position(5, 0, 0);
    p.pending_withdraw = vec![asset(native("x"), u128::MAX)];
    let before = p.clone();
    assert_eq!(
        p.process(2 * DECIMAL_FRACTIONAL, &vec![asset(native("x"), 1)], true),
        Err(StakingError::ArithmeticInvariantViolation)
    );
    assert_eq!(p, before);
}

#[test]
fn deposit_reward_is_for_the_rewarder() {
    let mut ledger = two_pools();
    let before = ledger.clone();
    assert_eq!(
        deposit_reward(&mut ledger, &id("owner"), &vec![asset(token("a-pool"), 1)]),
        Err(StakingError::Unauthorized)
    );
    assert_eq!(ledger, before);
}

#[test]
fn deposit_reward_takes_all_or_nothing() {
    let mut ledger = two_pools();
    let before = ledger.clone();
    assert_eq!(
        deposit_reward(
            &mut ledger,
            &id("rewarder"),
            &vec![asset(token("a-pool"), 1), asset(token("nowhere"), 1)]
        ),
        Err(StakingError::NotFound)
    );
    assert_eq!(ledger, before);

    deposit_reward(
        &mut ledger,
        &id("rewarder"),
        &vec![asset(token("a-pool"), 1), asset(token("b-pool"), 2), asset(token("a-pool"), 3)],
    )
    .unwrap();
    assert_eq!(query_pool_info(&ledger, &token("a-pool")).unwrap().pending_reward, 4);
    assert_eq!(query_pool_info(&ledger, &token("b-pool")).unwrap().pending_reward, 2);
}

fn staked_in_both() -> Ledger {
    let mut ledger = two_pools();
    bond(&mut ledger, &id("s"), &token("a-pool"), 10).unwrap();
    bond(&mut ledger, &id("s"), &token("b-pool"), 10).unwrap();
    bond(&mut ledger, &id("t"), &token("b-pool"), 30).unwrap();
    deposit_reward(
        &mut ledger,
        &id("rewarder"),
        &vec![asset(token("a-pool"), 40), asset(token("b-pool"), 80)],
    )
    .unwrap();
    ledger
}

#[test]
fn withdraw_from_all_pools_merges_by_asset_in_key_order() {
    let mut ledger = staked_in_both();
    // a-pool: 40 over x:1 y:3 -> x 10, y 30; b-pool: 20 over y:1 z:1 -> y 10, z 10
    let payments = withdraw_reward(&mut ledger, &id("s"), &None).unwrap();
    assert_eq!(
        payments,
        vec![
            PaymentInstruction { recipient: id("s"), asset: native("x"), amount: 10 },
            PaymentInstruction { recipient: id("s"), asset: native("y"), amount: 40 },
            PaymentInstruction { recipient: id("s"), asset: native("z"), amount: 10 },
        ]
    );
    // the other staker is untouched
    let info = query_reward_info(&ledger, &id("t"), &None).unwrap();
    assert_eq!(info.reward_infos.len(), 1);
    assert_eq!(info.reward_infos[0].pending_reward, 60);
    assert_eq!(info.reward_infos[0].asset_info, token("b-pool"));
}

#[test]
fn withdraw_from_one_pool_leaves_the_others() {
    let mut ledger = staked_in_both();
    let payments = withdraw_reward(&mut ledger, &id("s"), &Some(token("b-pool"))).unwrap();
    assert_eq!(
        payments,
        vec![
            PaymentInstruction { recipient: id("s"), asset: native("y"), amount: 10 },
            PaymentInstruction { recipient: id("s"), asset: native("z"), amount: 10 },
        ]
    );
    let info = query_reward_info(&ledger, &id("s"), &Some(token("a-pool"))).unwrap();
    assert_eq!(info.reward_infos[0].pending_reward, 40);
}

#[test]
fn withdraw_without_a_position_pays_nothing() {
    let mut ledger = staked_in_both();
    let before = ledger.clone();
    assert_eq!(withdraw_reward(&mut ledger, &id("nobody"), &None), Ok(vec![]));
    assert_eq!(withdraw_reward(&mut ledger, &id("s"), &Some(token("nowhere"))), Ok(vec![]));
    assert_eq!(withdraw_reward(&mut ledger, &id("t"), &Some(token("a-pool"))), Ok(vec![]));
    assert_eq!(ledger, before);
}

#[test]
fn withdraw_closes_a_position_with_nothing_bonded() {
    let mut ledger = staked_in_both();
    unbond(&mut ledger, &id("t"), &token("b-pool"), 30).unwrap();
    let pool = ledger.pools.get(&id("b-pool")).unwrap();
    assert_eq!(pool.positions.get(&id("t")).unwrap().pending_reward, 60);

    // settling without paying keeps the position: rewards are still owed
    process_reward_assets(&mut ledger, &id("t"), &Some(id("b-pool")), false).unwrap();
    let pool = ledger.pools.get(&id("b-pool")).unwrap();
    assert_eq!(
        pool.positions.get(&id("t")).unwrap().pending_withdraw,
        vec![asset(native("y"), 30), asset(native("z"), 30)]
    );

    let paid = process_reward_assets(&mut ledger, &id("t"), &None, true).unwrap();
    assert_eq!(paid, vec![asset(native("y"), 30), asset(native("z"), 30)]);
    assert!(ledger.pools.get(&id("b-pool")).unwrap().positions.get(&id("t")).is_none());
}

#[test]
fn withdraw_reward_others_is_for_the_owner() {
    let mut ledger = staked_in_both();
    let before = ledger.clone();
    assert_eq!(
        withdraw_reward_others(&mut ledger, &id("rewarder"), &vec![id("s")], &None),
        Err(StakingError::Unauthorized)
    );
    assert_eq!(ledger, before);
}

#[test]
fn withdraw_reward_others_settles_without_paying() {
    let mut ledger = staked_in_both();
    withdraw_reward_others(&mut ledger, &id("owner"), &vec![id("s"), id("t"), id("nobody")], &None)
        .unwrap();
    let s = query_reward_info(&ledger, &id("s"), &None).unwrap();
    assert_eq!(s.reward_infos[0].pending_reward, 0);
    assert_eq!(s.reward_infos[0].pending_withdraw, vec![asset(native("x"), 10), asset(native("y"), 30)]);
    assert_eq!(s.reward_infos[1].pending_withdraw, vec![asset(native("y"), 10), asset(native("z"), 10)]);
    let t = query_reward_info(&ledger, &id("t"), &None).unwrap();
    assert_eq!(t.reward_infos[0].pending_withdraw, vec![asset(native("y"), 30), asset(native("z"), 30)]);
}

#[test]
fn withdraw_reward_others_settles_all_or_none() {
    let mut ledger = staked_in_both();
    // the second staker's position claims an index that the pool never reached
    ledger.pools.entries[1].1.positions.entries[1].1.index = u128::MAX;
    let before = ledger.clone();
    assert_eq!(
        withdraw_reward_others(&mut ledger, &id("owner"), &vec![id("s"), id("t")], &None),
        Err(StakingError::ArithmeticInvariantViolation)
    );
    assert_eq!(ledger, before);

    // the same for one staker over several pools
    ledger.pools.entries[1].1.positions.entries[0].1.index = u128::MAX;
    let before = ledger.clone();
    assert_eq!(
        withdraw_reward(&mut ledger, &id("s"), &None),
        Err(StakingError::ArithmeticInvariantViolation)
    );
    assert_eq!(ledger, before);
}
