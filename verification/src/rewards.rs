//! Rewards on the ledger: deposits into the pools' indices, and the
//! settlement and payment of what stakers have earned.

use crate::asset::{assets_view, merge_assets, merged_all, Asset, AssetInfo, AssetView};
use crate::error::StakingError;
use crate::laws::{lemma_call_keeps_sound, Call};
use crate::ledger::{
    copy_pools, lemma_swap_back, pay_to, payments_to, payments_view, Ledger, LedgerView,
    PaymentInstruction, PaymentView,
};
use crate::sorted_map::{lookup, put};
use crate::stakers::{Pool, PoolView};
use vstd::prelude::*;

verus! {

/// The pools after `reward` came in for the pool of its asset.
pub open spec fn deposited_one(pools: Seq<(Seq<u8>, PoolView)>, reward: AssetView) -> Result<
    Seq<(Seq<u8>, PoolView)>,
    StakingError,
> {
    match lookup(pools, reward.info.id) {
        None => Err(StakingError::NotFound),
        Some(pool) => match pool.account.deposited(reward.amount) {
            Err(e) => Err(e),
            Ok(account) => Ok(put(pools, reward.info.id, PoolView { account, ..pool })),
        },
    }
}

/// The pools after each of `rewards` came in, in the list's order.
pub open spec fn deposited_all(pools: Seq<(Seq<u8>, PoolView)>, rewards: Seq<AssetView>) -> Result<
    Seq<(Seq<u8>, PoolView)>,
    StakingError,
>
    decreases rewards.len(),
{
    if rewards.len() == 0 {
        Ok(pools)
    } else {
        match deposited_all(pools, rewards.drop_last()) {
            Err(e) => Err(e),
            Ok(after) => deposited_one(after, rewards.last()),
        }
    }
}

/// The outcome of settling the rewards of `staker` in the pool under `key`:
/// the pools after it and the payments, one entry for each asset. A key
/// without a pool gives no payments.
pub open spec fn processed_one(
    pools: Seq<(Seq<u8>, PoolView)>,
    key: Seq<u8>,
    staker: Seq<u8>,
    do_withdraw: bool,
) -> Result<(Seq<(Seq<u8>, PoolView)>, Seq<AssetView>), StakingError> {
    match lookup(pools, key) {
        None => Ok((pools, Seq::empty())),
        Some(pool) => match pool.processed(staker, do_withdraw) {
            Err(e) => Err(e),
            Ok((after, payments)) => match merged_all(Seq::empty(), payments) {
                None => Err(StakingError::ArithmeticInvariantViolation),
                Some(list) => Ok((put(pools, key, after), list)),
            },
        },
    }
}

/// The outcome of settling the rewards of `staker` in the first `n` pools,
/// in ascending order of their keys: the pools after it, and the payments of
/// all of them merged, one entry for each asset.
pub open spec fn processed_walk(
    pools: Seq<(Seq<u8>, PoolView)>,
    staker: Seq<u8>,
    do_withdraw: bool,
    n: int,
) -> Result<(Seq<(Seq<u8>, PoolView)>, Seq<AssetView>), StakingError>
    decreases n,
{
    if n <= 0 {
        Ok((pools, Seq::empty()))
    } else {
        match processed_walk(pools, staker, do_withdraw, n - 1) {
            Err(e) => Err(e),
            Ok((done, paid)) => match done[n - 1].1.processed(staker, do_withdraw) {
                Err(e) => Err(e),
                Ok((after, payments)) => match merged_all(paid, payments) {
                    None => Err(StakingError::ArithmeticInvariantViolation),
                    Some(list) => Ok((done.update(n - 1, (done[n - 1].0, after)), list)),
                },
            },
        }
    }
}

/// The outcome of settling the rewards of `staker`: in the pool under the
/// given key, or in every pool.
pub open spec fn processed(
    pools: Seq<(Seq<u8>, PoolView)>,
    staker: Seq<u8>,
    key: Option<Seq<u8>>,
    do_withdraw: bool,
) -> Result<(Seq<(Seq<u8>, PoolView)>, Seq<AssetView>), StakingError> {
    match key {
        Some(key) => processed_one(pools, key, staker, do_withdraw),
        None => processed_walk(pools, staker, do_withdraw, pools.len() as int),
    }
}

/// The pools after the rewards of each of `stakers` are settled, in the
/// list's order, without paying anything out.
pub open spec fn processed_stakers(
    pools: Seq<(Seq<u8>, PoolView)>,
    stakers: Seq<Seq<u8>>,
    key: Option<Seq<u8>>,
) -> Result<Seq<(Seq<u8>, PoolView)>, StakingError>
    decreases stakers.len(),
{
    if stakers.len() == 0 {
        Ok(pools)
    } else {
        match processed_stakers(pools, stakers.drop_last(), key) {
            Err(e) => Err(e),
            Ok(after) => match processed(after, stakers.last(), key, false) {
                Err(e) => Err(e),
                Ok((settled, _)) => Ok(settled),
            },
        }
    }
}

/// The model of an optional key.
pub open spec fn key_view(key: Option<Vec<u8>>) -> Option<Seq<u8>> {
    match key {
        Some(key) => Some(key@),
        None => None,
    }
}

/// The key of an optional asset.
pub open spec fn asset_key(asset: Option<AssetInfo>) -> Option<Seq<u8>> {
    match asset {
        Some(asset) => Some(asset@.id),
        None => None,
    }
}

/// The models of a list of identities.
pub open spec fn identities_view(list: Seq<Vec<u8>>) -> Seq<Seq<u8>> {
    list.map_values(|s: Vec<u8>| s@)
}

impl LedgerView {
    /// The ledger after `sender` deposits `rewards`. Only the rewarder may.
    pub open spec fn deposit_reward(self, sender: Seq<u8>, rewards: Seq<AssetView>) -> Result<
        LedgerView,
        StakingError,
    > {
        if sender != self.rewarder {
            Err(StakingError::Unauthorized)
        } else {
            match deposited_all(self.pools, rewards) {
                Err(e) => Err(e),
                Ok(pools) => Ok(LedgerView { pools, ..self }),
            }
        }
    }

    /// The ledger after the rewards of `staker` are settled, and the assets
    /// to pay.
    pub open spec fn process_reward_assets(
        self,
        staker: Seq<u8>,
        key: Option<Seq<u8>>,
        do_withdraw: bool,
    ) -> Result<(LedgerView, Seq<AssetView>), StakingError> {
        match processed(self.pools, staker, key, do_withdraw) {
            Err(e) => Err(e),
            Ok((pools, payments)) => Ok((LedgerView { pools, ..self }, payments)),
        }
    }

    /// The ledger after `staker` withdraws the rewards, and the payments to
    /// the staker.
    pub open spec fn withdraw_reward(self, staker: Seq<u8>, key: Option<Seq<u8>>) -> Result<
        (LedgerView, Seq<PaymentView>),
        StakingError,
    > {
        match self.process_reward_assets(staker, key, true) {
            Err(e) => Err(e),
            Ok((after, payments)) => Ok((after, payments_to(staker, payments))),
        }
    }

    /// The ledger after `sender` has the rewards of `stakers` settled. Only
    /// the owner may. Nothing is paid: what is settled stays in the
    /// positions for the stakers to withdraw.
    pub open spec fn withdraw_reward_others(
        self,
        sender: Seq<u8>,
        stakers: Seq<Seq<u8>>,
        key: Option<Seq<u8>>,
    ) -> Result<LedgerView, StakingError> {
        if sender != self.owner {
            Err(StakingError::Unauthorized)
        } else {
            match processed_stakers(self.pools, stakers, key) {
                Err(e) => Err(e),
                Ok(pools) => Ok(LedgerView { pools, ..self }),
            }
        }
    }
}

/// A failure on a prefix of the rewards is the failure of the whole list.
pub proof fn lemma_deposited_prefix_fails(
    pools: Seq<(Seq<u8>, PoolView)>,
    rewards: Seq<AssetView>,
    n: int,
)
    requires
        0 <= n <= rewards.len(),
        deposited_all(pools, rewards.take(n)) is Err,
    ensures
        deposited_all(pools, rewards) == deposited_all(pools, rewards.take(n)),
    decreases rewards.len() - n,
{
    if n == rewards.len() {
        assert(rewards.take(n) =~= rewards);
    } else {
        assert(rewards.drop_last().take(n) =~= rewards.take(n));
        lemma_deposited_prefix_fails(pools, rewards.drop_last(), n);
    }
}

/// A failure on the first `n` pools is the failure of every longer walk.
pub proof fn lemma_walk_prefix_fails(
    pools: Seq<(Seq<u8>, PoolView)>,
    staker: Seq<u8>,
    do_withdraw: bool,
    n: int,
    m: int,
)
    requires
        0 <= n <= m,
        processed_walk(pools, staker, do_withdraw, n) is Err,
    ensures
        processed_walk(pools, staker, do_withdraw, m) == processed_walk(
            pools,
            staker,
            do_withdraw,
            n,
        ),
    decreases m - n,
{
    if n < m {
        lemma_walk_prefix_fails(pools, staker, do_withdraw, n, m - 1);
    }
}

/// A failure on a prefix of the stakers is the failure of the whole list.
pub proof fn lemma_stakers_prefix_fails(
    pools: Seq<(Seq<u8>, PoolView)>,
    stakers: Seq<Seq<u8>>,
    key: Option<Seq<u8>>,
    n: int,
)
    requires
        0 <= n <= stakers.len(),
        processed_stakers(pools, stakers.take(n), key) is Err,
    ensures
        processed_stakers(pools, stakers, key) == processed_stakers(pools, stakers.take(n), key),
    decreases stakers.len() - n,
{
    if n == stakers.len() {
        assert(stakers.take(n) =~= stakers);
    } else {
        assert(stakers.drop_last().take(n) =~= stakers.take(n));
        lemma_stakers_prefix_fails(pools, stakers.drop_last(), key, n);
    }
}

/// Takes `reward` into the pool of its asset.
fn deposit_one(ledger: &mut Ledger, reward: &Asset) -> (r: Result<(), StakingError>)
    requires
        old(ledger)@.wf(),
    ensures
        final(ledger)@.wf(),
        final(ledger)@.owner == old(ledger)@.owner,
        final(ledger)@.rewarder == old(ledger)@.rewarder,
        match r {
            Ok(()) => deposited_one(old(ledger)@.pools, reward@) == Ok::<
                Seq<(Seq<u8>, PoolView)>,
                StakingError,
            >(final(ledger)@.pools),
            Err(e) => deposited_one(old(ledger)@.pools, reward@) == Err::<
                Seq<(Seq<u8>, PoolView)>,
                StakingError,
            >(e) && final(ledger)@ == old(ledger)@,
        },
{
    let key = reward.info.to_vec();
    let (i, found) = ledger.pools.find(&key);
    if !found {
        return Err(StakingError::NotFound);
    }
    let mut pool = Pool::new(Vec::new());
    ledger.pools.swap_value_at(i, &mut pool);
    let outcome = pool.account.deposit(reward.amount);
    let ghost after = pool@;
    ledger.pools.swap_value_at(i, &mut pool);
    proof {
        assert(ledger@.pools =~= old(ledger)@.pools.update(
            i as int,
            (old(ledger)@.pools[i as int].0, after),
        ));
        lemma_swap_back(old(ledger)@.pools, i as int, after);
    }
    outcome
}

/// Deposits `rewards`, each into the pool of its asset. Only the
/// rewarder may. All of the rewards are taken, or none.
pub fn deposit_reward(ledger: &mut Ledger, sender: &Vec<u8>, rewards: &Vec<Asset>) -> (r: Result<
    (),
    StakingError,
>)
    requires
        old(ledger)@.wf(),
    ensures
        final(ledger)@.wf(),
        match r {
            Ok(()) => old(ledger)@.deposit_reward(sender@, assets_view(rewards@)) == Ok::<
                LedgerView,
                StakingError,
            >(final(ledger)@),
            Err(e) => old(ledger)@.deposit_reward(sender@, assets_view(rewards@)) == Err::<
                LedgerView,
                StakingError,
            >(e) && final(ledger)@ == old(ledger)@,
        },
        old(ledger)@.sound() ==> final(ledger)@.sound(),
{
    proof {
        if ledger@.sound() {
            lemma_call_keeps_sound(
                ledger@,
                Call::DepositReward { sender: sender@, rewards: assets_view(rewards@) },
            );
        }
    }
    match ledger.authorize_rewarder(sender) {
        Ok(()) => {},
        Err(e) => {
            return Err(e);
        },
    }
    let ghost list = assets_view(rewards@);
    let backup = copy_pools(&ledger.pools);
    let mut i: usize = 0;
    while i < rewards.len()
        invariant
            i <= rewards.len(),
            list == assets_view(rewards@),
            ledger@.wf(),
            ledger@.owner == old(ledger)@.owner,
            ledger@.rewarder == old(ledger)@.rewarder,
            sender@ == old(ledger)@.rewarder,
            backup@ == old(ledger)@.pools,
            old(ledger)@.wf(),
            deposited_all(old(ledger)@.pools, list.take(i as int)) == Ok::<
                Seq<(Seq<u8>, PoolView)>,
                StakingError,
            >(ledger@.pools),
        decreases rewards.len() - i,
    {
        proof {
            assert(list.take(i + 1).drop_last() =~= list.take(i as int));
        }
        match deposit_one(ledger, &rewards[i]) {
            Ok(()) => {},
            Err(e) => {
                proof {
                    lemma_deposited_prefix_fails(old(ledger)@.pools, list, i + 1);
                }
                ledger.pools = backup;
                return Err(e);
            },
        }
        i += 1;
    }
    assert(list.take(rewards.len() as int) =~= list);
    Ok(())
}

/// Settles the rewards of `staker` in the pool under `asset_key`, or in
/// every pool where no key is given, and splits them over the reward
/// assets. With `do_withdraw` what the positions hold in
/// `pending_withdraw` is paid out: the result lists what to pay, one entry
/// for each asset. A position that is left with nothing bonded and
/// nothing owed is closed. All of it happens, or nothing.
pub fn process_reward_assets(
    ledger: &mut Ledger,
    staker: &Vec<u8>,
    asset_key: &Option<Vec<u8>>,
    do_withdraw: bool,
) -> (r: Result<Vec<Asset>, StakingError>)
    requires
        old(ledger)@.wf(),
    ensures
        final(ledger)@.wf(),
        match r {
            Ok(payments) => old(ledger)@.process_reward_assets(
                staker@,
                key_view(*asset_key),
                do_withdraw,
            ) == Ok::<(LedgerView, Seq<AssetView>), StakingError>(
                (final(ledger)@, assets_view(payments@)),
            ),
            Err(e) => old(ledger)@.process_reward_assets(staker@, key_view(*asset_key), do_withdraw)
                == Err::<(LedgerView, Seq<AssetView>), StakingError>(e) && final(ledger)@ == old(ledger)@,
        },
        old(ledger)@.sound() ==> final(ledger)@.sound(),
{
    proof {
        if ledger@.sound() {
            lemma_call_keeps_sound(
                ledger@,
                Call::ProcessRewards { staker: staker@, key: key_view(*asset_key), do_withdraw },
            );
        }
    }
    let mut paid: Vec<Asset> = Vec::new();
    assert(assets_view(paid@) =~= Seq::<AssetView>::empty());
    match asset_key {
        Some(key) => {
            let (i, found) = ledger.pools.find(key);
            if !found {
                return Ok(paid);
            }
            match process_at(ledger, i, staker, do_withdraw, &mut paid) {
                Ok(()) => Ok(paid),
                Err(e) => Err(e),
            }
        },
        None => {
            let backup = copy_pools(&ledger.pools);
            let mut i: usize = 0;
            while i < ledger.pools.len()
                invariant
                    i <= ledger.pools@.len(),
                    *asset_key is None,
                    ledger@.wf(),
                    ledger@.owner == old(ledger)@.owner,
                    ledger@.rewarder == old(ledger)@.rewarder,
                    ledger@.pools.len() == old(ledger)@.pools.len(),
                    backup@ == old(ledger)@.pools,
                    old(ledger)@.wf(),
            old(ledger)@.wf(),
                    processed_walk(old(ledger)@.pools, staker@, do_withdraw, i as int) == Ok::<
                        (Seq<(Seq<u8>, PoolView)>, Seq<AssetView>),
                        StakingError,
                    >((ledger@.pools, assets_view(paid@))),
                decreases ledger.pools@.len() - i,
            {
                let ghost done = ledger@.pools;
                let ghost sum = assets_view(paid@);
                match process_at(ledger, i, staker, do_withdraw, &mut paid) {
                    Ok(()) => {},
                    Err(e) => {
                        proof {
                            assert(processed_walk(
                                old(ledger)@.pools,
                                staker@,
                                do_withdraw,
                                i as int,
                            ) == Ok::<
                                (Seq<(Seq<u8>, PoolView)>, Seq<AssetView>),
                                StakingError,
                            >((done, sum)));
                            assert(processed_walk(
                                old(ledger)@.pools,
                                staker@,
                                do_withdraw,
                                i + 1,
                            ) == Err::<
                                (Seq<(Seq<u8>, PoolView)>, Seq<AssetView>),
                                StakingError,
                            >(e));
                            lemma_walk_prefix_fails(
                                old(ledger)@.pools,
                                staker@,
                                do_withdraw,
                                i + 1,
                                old(ledger)@.pools.len() as int,
                            );
                        }
                        ledger.pools = backup;
                        return Err(e);
                    },
                }
                i += 1;
            }
            Ok(paid)
        },
    }
}

/// Settles the rewards of `staker` in the pool at `i` and merges what is
/// to pay into `paid`.
fn process_at(ledger: &mut Ledger, i: usize, staker: &Vec<u8>, do_withdraw: bool, paid: &mut Vec<Asset>)
    -> (r: Result<(), StakingError>)
    requires
        old(ledger)@.wf(),
        i < old(ledger)@.pools.len(),
    ensures
        final(ledger)@.wf(),
        final(ledger)@.owner == old(ledger)@.owner,
        final(ledger)@.rewarder == old(ledger)@.rewarder,
        match old(ledger)@.pools[i as int].1.processed(staker@, do_withdraw) {
            Err(e) => r == Err::<(), StakingError>(e),
            Ok((after, payments)) => match merged_all(assets_view(old(paid)@), payments) {
                None => r == Err::<(), StakingError>(
                    StakingError::ArithmeticInvariantViolation,
                ),
                Some(list) => r is Ok && assets_view(final(paid)@) == list && final(ledger)@.pools == old(ledger)@.pools.update(
                    i as int,
                    (old(ledger)@.pools[i as int].0, after),
                ) && final(ledger)@.pools == put(
                    old(ledger)@.pools,
                    old(ledger)@.pools[i as int].0,
                    after,
                ),
            },
        },
        r is Err ==> final(ledger)@ == old(ledger)@ && assets_view(final(paid)@) == assets_view(
            old(paid)@,
        ),
{
    let (position, payments) = match ledger.pools.value_at(i).settle_position(staker, do_withdraw) {
        Ok(Some(settled)) => settled,
        Ok(None) => {
            proof {
                assert(merged_all(assets_view(paid@), Seq::<AssetView>::empty()) == Some(
                    assets_view(paid@),
                ));
                lemma_swap_back(old(ledger)@.pools, i as int, old(ledger)@.pools[i as int].1);
            }
            return Ok(());
        },
        Err(e) => {
            return Err(e);
        },
    };
    match merge_assets(paid, &payments) {
        Ok(()) => {},
        Err(e) => {
            return Err(e);
        },
    }
    let mut pool = Pool::new(Vec::new());
    ledger.pools.swap_value_at(i, &mut pool);
    pool.store_position(staker, position);
    let ghost after = pool@;
    ledger.pools.swap_value_at(i, &mut pool);
    proof {
        assert(ledger@.pools =~= old(ledger)@.pools.update(
            i as int,
            (old(ledger)@.pools[i as int].0, after),
        ));
        lemma_swap_back(old(ledger)@.pools, i as int, after);
    }
    Ok(())
}

/// Withdraws the rewards of `staker`: of the pool of `asset_info`, or of
/// every pool where no asset is given. Gives the payments to make to the
/// staker.
pub fn withdraw_reward(ledger: &mut Ledger, staker: &Vec<u8>, asset_info: &Option<AssetInfo>) -> (r:
    Result<Vec<PaymentInstruction>, StakingError>)
    requires
        old(ledger)@.wf(),
    ensures
        final(ledger)@.wf(),
        match r {
            Ok(payments) => old(ledger)@.withdraw_reward(staker@, asset_key(*asset_info)) == Ok::<
                (LedgerView, Seq<PaymentView>),
                StakingError,
            >((final(ledger)@, payments_view(payments@))),
            Err(e) => old(ledger)@.withdraw_reward(staker@, asset_key(*asset_info)) == Err::<
                (LedgerView, Seq<PaymentView>),
                StakingError,
            >(e) && final(ledger)@ == old(ledger)@,
        },
        old(ledger)@.sound() ==> final(ledger)@.sound(),
{
    let key = match asset_info {
        Some(asset) => Some(asset.to_vec()),
        None => None,
    };
    match process_reward_assets(ledger, staker, &key, true) {
        Ok(assets) => Ok(pay_to(staker, assets)),
        Err(e) => Err(e),
    }
}

/// Settles the rewards of each of `staker_addrs` without paying them
/// out. Only the owner may. All of the stakers are settled, or none.
pub fn withdraw_reward_others(
    ledger: &mut Ledger,
    sender: &Vec<u8>,
    staker_addrs: &Vec<Vec<u8>>,
    asset_info: &Option<AssetInfo>,
) -> (r: Result<(), StakingError>)
    requires
        old(ledger)@.wf(),
    ensures
        final(ledger)@.wf(),
        match r {
            Ok(()) => old(ledger)@.withdraw_reward_others(
                sender@,
                identities_view(staker_addrs@),
                asset_key(*asset_info),
            ) == Ok::<LedgerView, StakingError>(final(ledger)@),
            Err(e) => old(ledger)@.withdraw_reward_others(
                sender@,
                identities_view(staker_addrs@),
                asset_key(*asset_info),
            ) == Err::<LedgerView, StakingError>(e) && final(ledger)@ == old(ledger)@,
        },
        old(ledger)@.sound() ==> final(ledger)@.sound(),
{
    proof {
        if ledger@.sound() {
            lemma_call_keeps_sound(
                ledger@,
                Call::WithdrawOthers {
                    sender: sender@,
                    stakers: identities_view(staker_addrs@),
                    key: asset_key(*asset_info),
                },
            );
        }
    }
    match ledger.authorize_owner(sender) {
        Ok(()) => {},
        Err(e) => {
            return Err(e);
        },
    }
    let key = match asset_info {
        Some(asset) => Some(asset.to_vec()),
        None => None,
    };
    let ghost stakers = identities_view(staker_addrs@);
    let backup = copy_pools(&ledger.pools);
    let mut i: usize = 0;
    while i < staker_addrs.len()
        invariant
            i <= staker_addrs.len(),
            stakers == identities_view(staker_addrs@),
            key_view(key) == asset_key(*asset_info),
            ledger@.wf(),
            ledger@.owner == old(ledger)@.owner,
            ledger@.rewarder == old(ledger)@.rewarder,
            sender@ == old(ledger)@.owner,
            backup@ == old(ledger)@.pools,
            old(ledger)@.wf(),
            processed_stakers(old(ledger)@.pools, stakers.take(i as int), key_view(key)) == Ok::<
                Seq<(Seq<u8>, PoolView)>,
                StakingError,
            >(ledger@.pools),
        decreases staker_addrs.len() - i,
    {
        proof {
            assert(stakers.take(i + 1).drop_last() =~= stakers.take(i as int));
        }
        match process_reward_assets(ledger, &staker_addrs[i], &key, false) {
            Ok(_) => {},
            Err(e) => {
                proof {
                    lemma_stakers_prefix_fails(
                        old(ledger)@.pools,
                        stakers,
                        key_view(key),
                        i + 1,
                    );
                }
                ledger.pools = backup;
                return Err(e);
            },
        }
        i += 1;
    }
    assert(stakers.take(staker_addrs.len() as int) =~= stakers);
    Ok(())
}

} // verus!
