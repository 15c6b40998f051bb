//! What holds of the ledger whatever is done with it.

use crate::asset::{AssetInfoView, AssetView};
use crate::fixed_point::lemma_mul_floor_monotonic;
use crate::invariants::{
    bond_sum, lemma_deposited_all_keeps, lemma_fresh_pool_keeps, lemma_kept_pool,
    lemma_kept_position, lemma_pool_bond_keeps, lemma_pool_migrate_keeps,
    lemma_pool_unbond_keeps, lemma_processed_keeps, lemma_processed_stakers_keeps,
    lemma_put_pools_keep, Invariant,
};
use crate::ledger::{lemma_put_pools_wf, pools_wf, LedgerView};
use crate::pool::PoolAccountView;
use crate::position::PositionView;
use crate::rewards::{deposited_all, deposited_one};
use crate::sorted_map::{lemma_lookup_put, lemma_rank_bounds, lookup};
use crate::stakers::PoolView;
use vstd::prelude::*;

verus! {

/// A call that may change the ledger.
#[allow(inconsistent_fields)]
pub enum Call {
    Register { key: Seq<u8>, staking_token: Seq<u8> },
    SetWeights { key: Seq<u8>, weights: Seq<AssetView> },
    Migrate { key: Seq<u8>, new_staking_token: Seq<u8> },
    Bond { staker: Seq<u8>, asset: AssetInfoView, amount: nat },
    Unbond { staker: Seq<u8>, asset: AssetInfoView, amount: nat },
    DepositReward { sender: Seq<u8>, rewards: Seq<AssetView> },
    ProcessRewards { staker: Seq<u8>, key: Option<Seq<u8>>, do_withdraw: bool },
    WithdrawOthers { sender: Seq<u8>, stakers: Seq<Seq<u8>>, key: Option<Seq<u8>> },
}

impl LedgerView {
    /// The ledger without pools.
    pub open spec fn empty(owner: Seq<u8>, rewarder: Seq<u8>) -> LedgerView {
        LedgerView { owner, rewarder, pools: Seq::empty() }
    }

    /// The ledger after `call`: a call that fails changes nothing, and a
    /// pool is migrated once.
    pub open spec fn after_call(self, call: Call) -> LedgerView {
        match call {
            Call::Register { key, staking_token } => self.registered(key, staking_token),
            Call::SetWeights { key, weights } => match self.reweighted(key, weights) {
                Ok(after) => after,
                Err(_) => self,
            },
            Call::Migrate { key, new_staking_token } => match self.pool(key) {
                Some(pool) => if pool.account.migration is None {
                    self.migrated(key, new_staking_token)->Ok_0
                } else {
                    self
                },
                None => self,
            },
            Call::Bond { staker, asset, amount } => match self.bonded(staker, asset, amount) {
                Ok(after) => after,
                Err(_) => self,
            },
            Call::Unbond { staker, asset, amount } => match self.unbonded(staker, asset, amount) {
                Ok((after, _)) => after,
                Err(_) => self,
            },
            Call::DepositReward { sender, rewards } => match self.deposit_reward(sender, rewards) {
                Ok(after) => after,
                Err(_) => self,
            },
            Call::ProcessRewards { staker, key, do_withdraw } => match self.process_reward_assets(
                staker,
                key,
                do_withdraw,
            ) {
                Ok((after, _)) => after,
                Err(_) => self,
            },
            Call::WithdrawOthers { sender, stakers, key } => match self.withdraw_reward_others(
                sender,
                stakers,
                key,
            ) {
                Ok(after) => after,
                Err(_) => self,
            },
        }
    }

    /// The ledger after `calls`, one after the other.
    pub open spec fn after_calls(self, calls: Seq<Call>) -> LedgerView
        decreases calls.len(),
    {
        if calls.len() == 0 {
            self
        } else {
            self.after_calls(calls.drop_last()).after_call(calls.last())
        }
    }
}

/// No call breaks an invariant that the ledger keeps.
pub proof fn lemma_call_keeps(ledger: LedgerView, call: Call, property: Invariant)
    requires
        ledger.keeps(property),
    ensures
        ledger.after_call(call).keeps(property),
{
    match call {
        Call::Register { key, staking_token } => {
            lemma_fresh_pool_keeps(staking_token, property);
            lemma_put_pools_keep(
                ledger.pools,
                key,
                PoolView {
                    account: PoolAccountView::fresh(staking_token),
                    weights: Seq::empty(),
                    positions: Seq::empty(),
                    migrated: Seq::empty(),
                },
                property,
            );
        },
        Call::SetWeights { key, weights } => {
            if ledger.pool(key) is Some {
                let pool = ledger.pool(key)->0;
                lemma_kept_pool(ledger.pools, key, property);
                let after = PoolView { weights, ..pool };
                assert(after.keeps(property)) by {
                    assert forall|i: int| 0 <= i < after.positions.len() implies (after.asks(
                        property,
                    ))(#[trigger] after.positions[i]) by {
                        assert((pool.asks(property))(pool.positions[i]));
                    }
                }
                lemma_put_pools_keep(ledger.pools, key, after, property);
            }
        },
        Call::Migrate { key, new_staking_token } => {
            if ledger.pool(key) is Some && ledger.pool(key)->0.account.migration is None {
                let pool = ledger.pool(key)->0;
                lemma_kept_pool(ledger.pools, key, property);
                lemma_pool_migrate_keeps(pool, new_staking_token, property);
                lemma_put_pools_keep(
                    ledger.pools,
                    key,
                    PoolView { account: pool.account.migrated_to(new_staking_token), ..pool },
                    property,
                );
            }
        },
        Call::Bond { staker, asset, amount } => {
            if ledger.bonded(staker, asset, amount) is Ok {
                let pool = ledger.pool(asset.id)->0;
                lemma_kept_pool(ledger.pools, asset.id, property);
                lemma_pool_bond_keeps(pool, staker, asset.native, amount, property);
                lemma_put_pools_keep(
                    ledger.pools,
                    asset.id,
                    pool.bonded(staker, asset.native, amount)->Ok_0,
                    property,
                );
            }
        },
        Call::Unbond { staker, asset, amount } => {
            if ledger.unbonded(staker, asset, amount) is Ok {
                let pool = ledger.pool(asset.id)->0;
                lemma_kept_pool(ledger.pools, asset.id, property);
                lemma_pool_unbond_keeps(pool, staker, amount, property);
                lemma_put_pools_keep(
                    ledger.pools,
                    asset.id,
                    pool.unbonded(staker, amount)->Ok_0.pool,
                    property,
                );
            }
        },
        Call::DepositReward { sender, rewards } => {
            if ledger.deposit_reward(sender, rewards) is Ok {
                lemma_deposited_all_keeps(ledger.pools, rewards, property);
            }
        },
        Call::ProcessRewards { staker, key, do_withdraw } => {
            if ledger.process_reward_assets(staker, key, do_withdraw) is Ok {
                lemma_processed_keeps(ledger.pools, staker, key, do_withdraw, property);
            }
        },
        Call::WithdrawOthers { sender, stakers, key } => {
            if ledger.withdraw_reward_others(sender, stakers, key) is Ok {
                lemma_processed_stakers_keeps(ledger.pools, stakers, key, property);
            }
        },
    }
}

/// No sequence of calls breaks an invariant that the ledger keeps.
pub proof fn lemma_calls_keep(ledger: LedgerView, calls: Seq<Call>, property: Invariant)
    requires
        ledger.keeps(property),
    ensures
        ledger.after_calls(calls).keeps(property),
    decreases calls.len(),
{
    if calls.len() > 0 {
        lemma_calls_keep(ledger, calls.drop_last(), property);
        lemma_call_keeps(ledger.after_calls(calls.drop_last()), calls.last(), property);
    }
}

/// No call breaks a sound ledger.
pub proof fn lemma_call_keeps_sound(ledger: LedgerView, call: Call)
    requires
        ledger.sound(),
    ensures
        ledger.after_call(call).sound(),
{
    lemma_call_keeps(ledger, call, Invariant::Conserved);
    lemma_call_keeps(ledger, call, Invariant::Tidy);
    lemma_call_keeps(ledger, call, Invariant::Ordered);
    lemma_call_keeps(ledger, call, Invariant::Mapped);
}

/// Every ledger that calls can make of a ledger without pools is sound.
pub proof fn lemma_reachable_sound(owner: Seq<u8>, rewarder: Seq<u8>, calls: Seq<Call>)
    ensures
        LedgerView::empty(owner, rewarder).after_calls(calls).sound(),
{
    let empty = LedgerView::empty(owner, rewarder);
    lemma_calls_keep(empty, calls, Invariant::Conserved);
    lemma_calls_keep(empty, calls, Invariant::Tidy);
    lemma_calls_keep(empty, calls, Invariant::Ordered);
    lemma_calls_keep(empty, calls, Invariant::Mapped);
}

/// Conservation: where every pool whose staking token has not been replaced
/// has as its total the sum of what its stakers have bonded, it has so after
/// any sequence of calls.
pub proof fn lemma_conservation(ledger: LedgerView, calls: Seq<Call>, key: Seq<u8>)
    requires
        ledger.keeps(Invariant::Conserved),
        ledger.after_calls(calls).pool(key) is Some,
        ledger.after_calls(calls).pool(key)->0.account.migration is None,
    ensures
        bond_sum(ledger.after_calls(calls).pool(key)->0.positions) == ledger.after_calls(
            calls,
        ).pool(key)->0.account.total_bond_amount,
{
    lemma_calls_keep(ledger, calls, Invariant::Conserved);
    lemma_kept_pool(ledger.after_calls(calls).pools, key, Invariant::Conserved);
}

/// A position of a ledger that keeps its indices in order can be settled as
/// far as that order goes: its index does not lie above the index against
/// which it is settled.
pub proof fn lemma_settlement_in_order(ledger: LedgerView, key: Seq<u8>, staker: Seq<u8>)
    requires
        ledger.keeps(Invariant::Ordered),
        ledger.pool(key) is Some,
        lookup(ledger.pool(key)->0.positions, staker) is Some,
    ensures
        lookup(ledger.pool(key)->0.positions, staker)->0.index <= ledger.pool(
            key,
        )->0.effective_index(staker),
{
    lemma_kept_pool(ledger.pools, key, Invariant::Ordered);
    lemma_kept_position(ledger.pool(key)->0, staker, Invariant::Ordered);
}

/// Settlement is idempotent: a position that was settled against an index
/// is not changed by being settled against the same index again.
pub proof fn lemma_settlement_idempotent(position: PositionView, index: nat)
    requires
        position.settled(index) is Ok,
    ensures
        position.settled(index)->Ok_0.accrued(index) == 0,
        position.settled(index)->Ok_0.settled(index) == position.settled(index),
{
    lemma_mul_floor_monotonic(position.bond_amount, position.index, index);
}

/// A deposit never lowers the index of an account.
pub proof fn lemma_deposit_index_monotonic(account: PoolAccountView, amount: nat)
    requires
        account.deposited(amount) is Ok,
    ensures
        account.deposited(amount)->Ok_0.reward_index >= account.reward_index,
{
}

/// What deposits leave as it is in a pool, and that the index does not go down.
pub open spec fn same_stakers(before: Option<PoolView>, after: Option<PoolView>) -> bool {
    match before {
        None => after is None,
        Some(b) => after matches Some(a) && a.positions == b.positions && a.migrated
            == b.migrated && a.weights == b.weights && a.account.migration == b.account.migration
            && a.account.staking_token == b.account.staking_token && a.account.total_bond_amount
            == b.account.total_bond_amount && a.account.reward_index >= b.account.reward_index,
    }
}

/// A deposit changes nothing of a pool but its index and the reward that it
/// carries: the pools keep their keys, their stakers, and their snapshots, and
/// no index goes down.
pub proof fn lemma_deposit_keeps_stakers(
    pools: Seq<(Seq<u8>, PoolView)>,
    reward: AssetView,
    key: Seq<u8>,
)
    requires
        pools_wf(pools),
        deposited_one(pools, reward) is Ok,
    ensures
        pools_wf(deposited_one(pools, reward)->Ok_0),
        same_stakers(lookup(pools, key), lookup(deposited_one(pools, reward)->Ok_0, key)),
{
    let pool = lookup(pools, reward.info.id)->0;
    let account = pool.account.deposited(reward.amount)->Ok_0;
    let after = PoolView { account, ..pool };
    lemma_rank_bounds(pools, reward.info.id);
    lemma_put_pools_wf(pools, reward.info.id, after);
    lemma_lookup_put(pools, reward.info.id, after, key);
}

/// What holds of one deposit holds of a list of them.
pub proof fn lemma_deposits_keep_stakers(
    pools: Seq<(Seq<u8>, PoolView)>,
    rewards: Seq<AssetView>,
    key: Seq<u8>,
)
    requires
        pools_wf(pools),
        deposited_all(pools, rewards) is Ok,
    ensures
        pools_wf(deposited_all(pools, rewards)->Ok_0),
        same_stakers(lookup(pools, key), lookup(deposited_all(pools, rewards)->Ok_0, key)),
    decreases rewards.len(),
{
    if rewards.len() > 0 {
        lemma_deposits_keep_stakers(pools, rewards.drop_last(), key);
        lemma_deposit_keeps_stakers(
            deposited_all(pools, rewards.drop_last())->Ok_0,
            rewards.last(),
            key,
        );
    }
}

/// Every call of the sequence deposits rewards.
pub open spec fn only_deposits(calls: Seq<Call>) -> bool {
    forall|i: int| 0 <= i < calls.len() ==> (#[trigger] calls[i]) is DepositReward
}

/// What holds of one list of deposits holds of any number of calls that
/// deposit, whether they succeed or fail.
pub proof fn lemma_deposit_calls_keep_stakers(ledger: LedgerView, calls: Seq<Call>, key: Seq<u8>)
    requires
        ledger.wf(),
        only_deposits(calls),
    ensures
        ledger.after_calls(calls).wf(),
        same_stakers(ledger.pool(key), ledger.after_calls(calls).pool(key)),
    decreases calls.len(),
{
    if calls.len() > 0 {
        lemma_deposit_calls_keep_stakers(ledger, calls.drop_last(), key);
        let before = ledger.after_calls(calls.drop_last());
        if let Call::DepositReward { sender, rewards } = calls.last() {
            if before.deposit_reward(sender, rewards) is Ok {
                lemma_deposits_keep_stakers(before.pools, rewards, key);
            }
        }
    }
}

/// Monotonic index: over any sequence of calls that deposit rewards, no
/// pool's reward index goes down.
pub proof fn lemma_deposit_reward_monotonic(ledger: LedgerView, calls: Seq<Call>, key: Seq<u8>)
    requires
        ledger.wf(),
        only_deposits(calls),
        ledger.pool(key) is Some,
    ensures
        ledger.after_calls(calls).pool(key) is Some,
        ledger.after_calls(calls).pool(key)->0.account.reward_index >= ledger.pool(
            key,
        )->0.account.reward_index,
{
    lemma_deposit_calls_keep_stakers(ledger, calls, key);
}

/// Migration freeze: for a staker whose rewards stop at a pool's snapshot,
/// no number of deposits changes what a query reports. The pending reward
/// that it reports is what the position had pending and what it accrued up
/// to the snapshot.
pub proof fn lemma_migration_freeze(
    ledger: LedgerView,
    calls: Seq<Call>,
    staker: Seq<u8>,
    asset: AssetInfoView,
)
    requires
        ledger.wf(),
        only_deposits(calls),
        ledger.pool(asset.id) is Some,
        ledger.pool(asset.id)->0.uses_snapshot(staker),
    ensures
        ledger.after_calls(calls).query_reward_info(staker, Some(asset))
            == ledger.query_reward_info(staker, Some(asset)),
        ledger.pool(asset.id)->0.reward_info(asset.id, staker, Some(asset)) matches Ok(Some(item))
            ==> item.pending_reward == lookup(
            ledger.pool(asset.id)->0.positions,
            staker,
        )->0.pending_reward + lookup(ledger.pool(asset.id)->0.positions, staker)->0.accrued(
            ledger.pool(asset.id)->0.account.migration->0.index_snapshot,
        ),
{
    lemma_deposit_calls_keep_stakers(ledger, calls, asset.id);
    let pool = ledger.pool(asset.id)->0;
    let position = lookup(pool.positions, staker)->0;
    if position.index <= pool.effective_index(staker) {
        lemma_mul_floor_monotonic(
            position.bond_amount,
            position.index,
            pool.effective_index(staker),
        );
    }
}

} // verus!
