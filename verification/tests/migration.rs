use oraiswap_staking::asset::{Asset, AssetInfo};
use oraiswap_staking::error::StakingError;
use oraiswap_staking::fixed_point::DECIMAL_FRACTIONAL;
use oraiswap_staking::ledger::{Ledger, PaymentInstruction};
use oraiswap_staking::legacy::{migrate_rewards_store, LegacyRewardInfo};
use oraiswap_staking::pool::{MigrationSnapshot, PoolAccount};
use oraiswap_staking::position::StakerPosition;
use oraiswap_staking::query::{query_pool_info, query_reward_info};
use oraiswap_staking::rewards::{deposit_reward, withdraw_reward};
use oraiswap_staking::staking::{bond, unbond};

fn id(s: &str) -> Vec<u8> {
    s.as_bytes().to_vec()
}

fn asset() -> AssetInfo {
    AssetInfo::Token { contract_addr: id("asset") }
}

fn reward(amount: u128) -> Vec<Asset> {
    vec![Asset { info: asset(), amount }]
}

/// A pool at index 4 with `old` bonded 100 and `legacy` bonded 50, both
/// settled, whose staking token is then replaced.
fn migrated_at_four() -> Ledger {
    let mut ledger = Ledger::new(id("owner"), id("rewarder"));
    ledger.register_pool(id("asset"), id("old-lp"));
    ledger
        .set_reward_weights(
            &id("asset"),
            vec![Asset { info: AssetInfo::NativeToken { denom: id("x") }, amount: 1 }],
        )
        .unwrap();
    bond(&mut ledger, &id("old"), &asset(), 100).unwrap();
    deposit_reward(&mut ledger, &id("rewarder"), &reward(400)).unwrap();
    bond(&mut ledger, &id("legacy"), &asset(), 50).unwrap();
    ledger.migrate(&id("asset"), id("new-lp")).unwrap();
    let pool = query_pool_info(&ledger, &asset()).unwrap();
    assert_eq!(pool.staking_token, id("new-lp"));
    assert_eq!(pool.migration_deprecated_staking_token, Some(id("old-lp")));
    assert_eq!(pool.migration_index_snapshot, Some(4 * DECIMAL_FRACTIONAL));
    assert_eq!(pool.reward_index, 4 * DECIMAL_FRACTIONAL);
    assert_eq!(pool.total_bond_amount, 150);
    ledger
}

#[test]
fn migration_snapshots_the_index_and_keeps_the_old_token() {
    let mut account = PoolAccount::new(id("old-lp"));
    account.total_bond_amount = 5;
    account.reward_index = 77;
    account.pending_reward = 3;
    account.migrate(id("new-lp"));
    assert_eq!(
        account,
        PoolAccount {
            staking_token: id("new-lp"),
            total_bond_amount: 5,
            reward_index: 77,
            pending_reward: 3,
            migration: Some(MigrationSnapshot {
                index_snapshot: 77,
                deprecated_staking_token: id("old-lp")
            }),
        }
    );
}

#[test]
fn migration_needs_a_pool() {
    let mut ledger = Ledger::new(id("owner"), id("rewarder"));
    assert_eq!(ledger.migrate(&id("asset"), id("new-lp")), Err(StakingError::NotFound));
}

#[test]
fn a_legacy_position_is_locked_until_it_is_unbonded() {
    let mut ledger = migrated_at_four();
    deposit_reward(&mut ledger, &id("rewarder"), &reward(150)).unwrap();

    let before = ledger.clone();
    assert_eq!(bond(&mut ledger, &id("legacy"), &asset(), 50), Err(StakingError::PositionLocked));
    assert_eq!(ledger, before);
    assert_eq!(
        StakingError::PositionLocked.message(),
        "The LP token for this asset has been deprecated, withdraw all your deprecated tokens to migrate your position"
    );

    let receipt = unbond(&mut ledger, &id("legacy"), &asset(), 50).unwrap();
    assert_eq!(
        receipt.transfer,
        PaymentInstruction {
            recipient: id("legacy"),
            asset: AssetInfo::Token { contract_addr: id("old-lp") },
            amount: 50,
        }
    );
    assert_eq!(receipt.reward_payments, vec![]);
    let pool = ledger.pools.get(&id("asset")).unwrap();
    assert!(pool.positions.get(&id("legacy")).is_none());
    assert!(pool.migrated.contains(&id("legacy")));
    assert_eq!(pool.account.total_bond_amount, 150);

    // with the old chapter closed the staker bonds the new token
    bond(&mut ledger, &id("legacy"), &asset(), 50).unwrap();
    let pool = ledger.pools.get(&id("asset")).unwrap();
    assert_eq!(pool.account.total_bond_amount, 200);
    assert_eq!(pool.positions.get(&id("legacy")).unwrap().index, 5 * DECIMAL_FRACTIONAL);
    let info = query_reward_info(&ledger, &id("legacy"), &Some(asset())).unwrap();
    assert_eq!(info.reward_infos[0].should_migrate, None);
}

#[test]
fn a_partial_legacy_unbond_stays_on_the_snapshot() {
    let mut ledger = migrated_at_four();
    let receipt = unbond(&mut ledger, &id("old"), &asset(), 60).unwrap();
    assert_eq!(receipt.transfer.asset, AssetInfo::Token { contract_addr: id("old-lp") });
    let pool = ledger.pools.get(&id("asset")).unwrap();
    assert!(!pool.migrated.contains(&id("old")));
    assert_eq!(pool.account.total_bond_amount, 150);
    let position = pool.positions.get(&id("old")).unwrap();
    assert_eq!(position.bond_amount, 40);
    assert_eq!(position.pending_reward, 400);
    assert_eq!(position.index, 4 * DECIMAL_FRACTIONAL);
    assert_eq!(bond(&mut ledger, &id("old"), &asset(), 1), Err(StakingError::PositionLocked));
}

#[test]
fn deposits_after_migration_do_not_reach_legacy_stakers() {
    let mut ledger = migrated_at_four();
    let frozen = query_reward_info(&ledger, &id("old"), &Some(asset())).unwrap();
    assert_eq!(frozen.reward_infos[0].pending_reward, 400);
    assert_eq!(frozen.reward_infos[0].should_migrate, Some(true));

    for amount in [150u128, 1, 0, 3000, 77] {
        deposit_reward(&mut ledger, &id("rewarder"), &reward(amount)).unwrap();
        assert_eq!(query_reward_info(&ledger, &id("old"), &Some(asset())).unwrap(), frozen);
        assert_eq!(
            query_reward_info(&ledger, &id("old"), &None).unwrap().reward_infos,
            frozen.reward_infos
        );
    }
    assert!(query_pool_info(&ledger, &asset()).unwrap().reward_index > 4 * DECIMAL_FRACTIONAL);

    // what is withdrawn is what the snapshot gives
    let paid = withdraw_reward(&mut ledger, &id("old"), &None).unwrap();
    assert_eq!(
        paid,
        vec![PaymentInstruction {
            recipient: id("old"),
            asset: AssetInfo::NativeToken { denom: id("x") },
            amount: 400
        }]
    );
    let position = ledger.pools.get(&id("asset")).unwrap().positions.get(&id("old")).unwrap();
    assert_eq!(position.index, 4 * DECIMAL_FRACTIONAL);
}

#[test]
fn a_newcomer_after_migration_accrues_against_the_live_index() {
    let mut ledger = migrated_at_four();
    bond(&mut ledger, &id("new"), &asset(), 50).unwrap();
    let pool = ledger.pools.get(&id("asset")).unwrap();
    assert!(pool.migrated.contains(&id("new")));
    assert_eq!(pool.account.total_bond_amount, 200);
    deposit_reward(&mut ledger, &id("rewarder"), &reward(200)).unwrap();
    let info = query_reward_info(&ledger, &id("new"), &Some(asset())).unwrap();
    assert_eq!(info.reward_infos[0].pending_reward, 50);
    assert_eq!(info.reward_infos[0].should_migrate, None);
    let receipt = unbond(&mut ledger, &id("new"), &asset(), 50).unwrap();
    assert_eq!(receipt.transfer.asset, AssetInfo::Token { contract_addr: id("new-lp") });
    assert_eq!(query_pool_info(&ledger, &asset()).unwrap().total_bond_amount, 150);
}

#[test]
fn old_records_become_positions_with_nothing_to_withdraw() {
    let legacy = vec![
        (
            id("asset-a"),
            LegacyRewardInfo { index: 5, bond_amount: 6, pending_reward: 7, native_token: false },
        ),
        (
            id("uatom"),
            LegacyRewardInfo { index: 0, bond_amount: 1, pending_reward: 0, native_token: true },
        ),
    ];
    assert_eq!(
        migrate_rewards_store(&legacy),
        vec![
            (
                id("asset-a"),
                StakerPosition {
                    native_token: false,
                    index: 5,
                    bond_amount: 6,
                    pending_reward: 7,
                    pending_withdraw: vec![],
                }
            ),
            (
                id("uatom"),
                StakerPosition {
                    native_token: true,
                    index: 0,
                    bond_amount: 1,
                    pending_reward: 0,
                    pending_withdraw: vec![],
                }
            ),
        ]
    );
    assert_eq!(migrate_rewards_store(&vec![]), vec![]);
}
