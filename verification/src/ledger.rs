//! The ledger: the pools by the identity of their asset, with the owner that
//! administers them and the rewarder that funds them.

use crate::asset::{assets_view, copy_assets, Asset, AssetInfo, AssetInfoView, AssetView};
use crate::bytes::{bytes_eq, copy_bytes};
use crate::error::StakingError;
use crate::laws::{lemma_call_keeps_sound, Call};
use crate::pool::PoolAccountView;
use crate::position::StakerPosition;
use crate::sorted_map::{contains_key, keys_sorted, lemma_rank_bounds, lookup, put, rank, SortedMap};
use crate::stakers::{Pool, PoolView};
use vstd::prelude::*;

verus! {

/// The staking state of all assets.
#[derive(Debug, PartialEq, Eq)]
pub struct Ledger {
    /// The identity that administers the ledger.
    pub owner: Vec<u8>,
    /// The identity that may deposit rewards.
    pub rewarder: Vec<u8>,
    /// The pools, by the key of their asset.
    pub pools: SortedMap<Pool>,
}

/// The model of the ledger. Pools are in ascending order of their key.
pub struct LedgerView {
    pub owner: Seq<u8>,
    pub rewarder: Seq<u8>,
    pub pools: Seq<(Seq<u8>, PoolView)>,
}

impl View for Ledger {
    type V = LedgerView;

    open spec fn view(&self) -> LedgerView {
        LedgerView { owner: self.owner@, rewarder: self.rewarder@, pools: self.pools@ }
    }
}

/// Every pool of the sequence has its positions and flags in order.
pub open spec fn pools_wf(pools: Seq<(Seq<u8>, PoolView)>) -> bool {
    keys_sorted(pools) && forall|i: int| 0 <= i < pools.len() ==> (#[trigger] pools[i]).1.wf()
}

/// A transfer that the caller is to make.
#[derive(Debug, PartialEq, Eq)]
pub struct PaymentInstruction {
    pub recipient: Vec<u8>,
    pub asset: AssetInfo,
    pub amount: u128,
}

/// The model of a payment instruction.
pub struct PaymentView {
    pub recipient: Seq<u8>,
    pub asset: AssetInfoView,
    pub amount: nat,
}

impl View for PaymentInstruction {
    type V = PaymentView;

    open spec fn view(&self) -> PaymentView {
        PaymentView { recipient: self.recipient@, asset: self.asset@, amount: self.amount as nat }
    }
}

/// The models of a list of payment instructions.
pub open spec fn payments_view(list: Seq<PaymentInstruction>) -> Seq<PaymentView> {
    list.map_values(|p: PaymentInstruction| p@)
}

/// The payments that hand each amount of `assets` to `recipient`, in order.
pub open spec fn payments_to(recipient: Seq<u8>, assets: Seq<AssetView>) -> Seq<PaymentView> {
    assets.map_values(
        |a: AssetView| PaymentView { recipient, asset: a.info, amount: a.amount },
    )
}

/// What an unbond hands back: the bonded amount, in the staking token, and
/// the rewards of a position that was closed.
#[derive(Debug, PartialEq, Eq)]
pub struct UnbondReceipt {
    pub transfer: PaymentInstruction,
    pub reward_payments: Vec<PaymentInstruction>,
}

/// The model of an unbond receipt.
pub struct ReceiptView {
    pub transfer: PaymentView,
    pub reward_payments: Seq<PaymentView>,
}

impl View for UnbondReceipt {
    type V = ReceiptView;

    open spec fn view(&self) -> ReceiptView {
        ReceiptView {
            transfer: self.transfer@,
            reward_payments: payments_view(self.reward_payments@),
        }
    }
}

impl LedgerView {
    /// Pools, positions and flags are each in strictly ascending key order.
    pub open spec fn wf(self) -> bool {
        pools_wf(self.pools)
    }

    /// The pool of the asset with key `key`, if it is registered.
    pub open spec fn pool(self, key: Seq<u8>) -> Option<PoolView> {
        lookup(self.pools, key)
    }

    /// The ledger with `pool` under `key`.
    pub open spec fn with_pool(self, key: Seq<u8>, pool: PoolView) -> LedgerView {
        LedgerView { pools: put(self.pools, key, pool), ..self }
    }

    /// The ledger after a pool for `key` is registered with `staking_token`.
    /// A key that already has a pool keeps it.
    pub open spec fn registered(self, key: Seq<u8>, staking_token: Seq<u8>) -> LedgerView {
        if self.pool(key) is Some {
            self
        } else {
            self.with_pool(
                key,
                PoolView {
                    account: PoolAccountView::fresh(staking_token),
                    weights: Seq::empty(),
                    positions: Seq::empty(),
                    migrated: Seq::empty(),
                },
            )
        }
    }

    /// The ledger after `staker` bonds `amount` in the pool of `asset`.
    pub open spec fn bonded(self, staker: Seq<u8>, asset: AssetInfoView, amount: nat) -> Result<
        LedgerView,
        StakingError,
    > {
        match self.pool(asset.id) {
            None => Err(StakingError::NotFound),
            Some(pool) => match pool.bonded(staker, asset.native, amount) {
                Err(e) => Err(e),
                Ok(after) => Ok(self.with_pool(asset.id, after)),
            },
        }
    }

    /// The ledger after `staker` unbonds `amount` from the pool of `asset`,
    /// and the receipt: the transfer of `amount` of the staking token to the
    /// staker, and the payments of the rewards of a position that was closed.
    pub open spec fn unbonded(self, staker: Seq<u8>, asset: AssetInfoView, amount: nat) -> Result<
        (LedgerView, ReceiptView),
        StakingError,
    > {
        match self.pool(asset.id) {
            None => Err(StakingError::NotFound),
            Some(pool) => match pool.unbonded(staker, amount) {
                Err(e) => Err(e),
                Ok(done) => Ok(
                    (
                        self.with_pool(asset.id, done.pool),
                        ReceiptView {
                            transfer: PaymentView {
                                recipient: staker,
                                asset: AssetInfoView { native: false, id: done.staking_token },
                                amount,
                            },
                            reward_payments: payments_to(staker, done.reward_assets),
                        },
                    ),
                ),
            },
        }
    }

    /// The ledger after the staking token of the pool under `key` is replaced.
    pub open spec fn migrated(self, key: Seq<u8>, new_staking_token: Seq<u8>) -> Result<
        LedgerView,
        StakingError,
    > {
        match self.pool(key) {
            None => Err(StakingError::NotFound),
            Some(pool) => Ok(
                self.with_pool(
                    key,
                    PoolView { account: pool.account.migrated_to(new_staking_token), ..pool },
                ),
            ),
        }
    }

    /// The ledger after the weight table of the pool under `key` is replaced.
    pub open spec fn reweighted(self, key: Seq<u8>, weights: Seq<AssetView>) -> Result<
        LedgerView,
        StakingError,
    > {
        match self.pool(key) {
            None => Err(StakingError::NotFound),
            Some(pool) => Ok(self.with_pool(key, PoolView { weights, ..pool })),
        }
    }
}

/// A fresh copy of the positions of a pool.
pub fn copy_positions(positions: &SortedMap<StakerPosition>) -> (r: SortedMap<StakerPosition>)
    ensures
        r@ == positions@,
{
    let mut entries: Vec<(Vec<u8>, StakerPosition)> = Vec::new();
    let mut i: usize = 0;
    while i < positions.entries.len()
        invariant
            i <= positions.entries.len(),
            entries@.len() == i,
            forall|j: int|
                0 <= j < i ==> (#[trigger] entries@[j]).0@ == positions.entries@[j].0@
                    && entries@[j].1@ == positions.entries@[j].1@,
        decreases positions.entries.len() - i,
    {
        let entry = &positions.entries[i];
        entries.push((copy_bytes(&entry.0), entry.1.clone()));
        i += 1;
    }
    let r = SortedMap { entries };
    r
}

/// A fresh copy of the migration flags of a pool.
pub fn copy_flags(flags: &SortedMap<()>) -> (r: SortedMap<()>)
    ensures
        r@ == flags@,
{
    let mut entries: Vec<(Vec<u8>, ())> = Vec::new();
    let mut i: usize = 0;
    while i < flags.entries.len()
        invariant
            i <= flags.entries.len(),
            entries@.len() == i,
            forall|j: int| 0 <= j < i ==> (#[trigger] entries@[j]).0@ == flags.entries@[j].0@,
        decreases flags.entries.len() - i,
    {
        entries.push((copy_bytes(&flags.entries[i].0), ()));
        i += 1;
    }
    let r = SortedMap { entries };
    r
}

impl Clone for Pool {
    fn clone(&self) -> (r: Self)
        ensures
            r@ == self@,
    {
        Pool {
            account: self.account.clone(),
            weights: copy_assets(&self.weights),
            positions: copy_positions(&self.positions),
            migrated: copy_flags(&self.migrated),
        }
    }
}

/// A fresh copy of the pools of a ledger.
pub fn copy_pools(pools: &SortedMap<Pool>) -> (r: SortedMap<Pool>)
    ensures
        r@ == pools@,
{
    let mut entries: Vec<(Vec<u8>, Pool)> = Vec::new();
    let mut i: usize = 0;
    while i < pools.entries.len()
        invariant
            i <= pools.entries.len(),
            entries@.len() == i,
            forall|j: int|
                0 <= j < i ==> (#[trigger] entries@[j]).0@ == pools.entries@[j].0@ && entries@[j].1@
                    == pools.entries@[j].1@,
        decreases pools.entries.len() - i,
    {
        let entry = &pools.entries[i];
        entries.push((copy_bytes(&entry.0), entry.1.clone()));
        i += 1;
    }
    let r = SortedMap { entries };
    r
}

impl Clone for Ledger {
    fn clone(&self) -> (r: Self)
        ensures
            r@ == self@,
    {
        Ledger {
            owner: copy_bytes(&self.owner),
            rewarder: copy_bytes(&self.rewarder),
            pools: copy_pools(&self.pools),
        }
    }
}

/// The payments that hand each amount of `assets` to `recipient`.
pub fn pay_to(recipient: &Vec<u8>, assets: Vec<Asset>) -> (r: Vec<PaymentInstruction>)
    ensures
        payments_view(r@) == payments_to(recipient@, assets_view(assets@)),
{
    let mut r: Vec<PaymentInstruction> = Vec::new();
    let mut i: usize = 0;
    while i < assets.len()
        invariant
            i <= assets.len(),
            r@.len() == i,
            forall|j: int|
                0 <= j < i ==> (#[trigger] r@[j])@ == (PaymentView {
                    recipient: recipient@,
                    asset: assets@[j]@.info,
                    amount: assets@[j]@.amount,
                }),
        decreases assets.len() - i,
    {
        r.push(
            PaymentInstruction {
                recipient: copy_bytes(recipient),
                asset: assets[i].info.clone(),
                amount: assets[i].amount,
            },
        );
        i += 1;
    }
    r
}

impl Ledger {
    /// A ledger without pools.
    pub fn new(owner: Vec<u8>, rewarder: Vec<u8>) -> (r: Self)
        ensures
            r@ == (LedgerView { owner: owner@, rewarder: rewarder@, pools: Seq::empty() }),
            r@.wf(),
            r@.sound(),
    {
        Ledger { owner, rewarder, pools: SortedMap::new() }
    }

    /// Whether pools, positions and flags are each in strictly ascending order.
    pub fn is_well_formed(&self) -> (r: bool)
        ensures
            r == self@.wf(),
    {
        if !self.pools.is_sorted() {
            return false;
        }
        let mut i: usize = 0;
        while i < self.pools.len()
            invariant
                i <= self.pools@.len(),
                forall|j: int| 0 <= j < i ==> (#[trigger] self@.pools[j]).1.wf(),
            decreases self.pools@.len() - i,
        {
            if !self.pools.value_at(i).is_well_formed() {
                return false;
            }
            i += 1;
        }
        true
    }

    /// Passes the owner and refuses everyone else.
    pub fn authorize_owner(&self, sender: &Vec<u8>) -> (r: Result<(), StakingError>)
        ensures
            r == if sender@ == self@.owner {
                Ok::<(), StakingError>(())
            } else {
                Err::<(), StakingError>(StakingError::Unauthorized)
            },
    {
        if bytes_eq(sender, &self.owner) {
            Ok(())
        } else {
            Err(StakingError::Unauthorized)
        }
    }

    /// Passes the rewarder and refuses everyone else.
    pub fn authorize_rewarder(&self, sender: &Vec<u8>) -> (r: Result<(), StakingError>)
        ensures
            r == if sender@ == self@.rewarder {
                Ok::<(), StakingError>(())
            } else {
                Err::<(), StakingError>(StakingError::Unauthorized)
            },
    {
        if bytes_eq(sender, &self.rewarder) {
            Ok(())
        } else {
            Err(StakingError::Unauthorized)
        }
    }

    /// Registers a pool for the asset with key `key`. Gives `false`, and
    /// changes nothing, when the key has a pool already.
    pub fn register_pool(&mut self, key: Vec<u8>, staking_token: Vec<u8>) -> (r: bool)
        requires
            old(self)@.wf(),
        ensures
            final(self)@.wf(),
            r == (old(self)@.pool(key@) is None),
            final(self)@ == old(self)@.registered(key@, staking_token@),
            old(self)@.sound() ==> final(self)@.sound(),
    {
        proof {
            if self@.sound() {
                lemma_call_keeps_sound(
                    self@,
                    Call::Register { key: key@, staking_token: staking_token@ },
                );
            }
        }
        if self.pools.contains(&key) {
            return false;
        }
        let pool = Pool::new(staking_token);
        proof {
            lemma_put_pools_wf(self@.pools, key@, pool@);
        }
        self.pools.insert(key, pool);
        true
    }

    /// Replaces the staking token of the pool under `key` and snapshots its
    /// index. A pool is migrated once: it must not hold a snapshot yet.
    pub fn migrate(&mut self, key: &Vec<u8>, new_staking_token: Vec<u8>) -> (r: Result<
        (),
        StakingError,
    >)
        requires
            old(self)@.wf(),
            old(self)@.pool(key@) is Some ==> old(self)@.pool(key@)->0.account.migration is None,
        ensures
            final(self)@.wf(),
            match r {
                Ok(()) => old(self)@.migrated(key@, new_staking_token@) == Ok::<
                    LedgerView,
                    StakingError,
                >(final(self)@),
                Err(e) => old(self)@.migrated(key@, new_staking_token@) == Err::<
                    LedgerView,
                    StakingError,
                >(e) && final(self)@ == old(self)@,
            },
            old(self)@.sound() ==> final(self)@.sound(),
    {
        proof {
            if self@.sound() {
                lemma_call_keeps_sound(
                    self@,
                    Call::Migrate { key: key@, new_staking_token: new_staking_token@ },
                );
            }
        }
        let (i, found) = self.pools.find(key);
        if !found {
            return Err(StakingError::NotFound);
        }
        let mut pool = Pool::new(Vec::new());
        self.pools.swap_value_at(i, &mut pool);
        pool.account.migrate(new_staking_token);
        let ghost after = pool@;
        self.pools.swap_value_at(i, &mut pool);
        proof {
            assert(self@.pools =~= old(self)@.pools.update(
                i as int,
                (old(self)@.pools[i as int].0, after),
            ));
            lemma_swap_back(old(self)@.pools, i as int, after);
        }
        Ok(())
    }

    /// Replaces the weight table of the pool under `key`.
    pub fn set_reward_weights(&mut self, key: &Vec<u8>, weights: Vec<Asset>) -> (r: Result<
        (),
        StakingError,
    >)
        requires
            old(self)@.wf(),
        ensures
            final(self)@.wf(),
            match r {
                Ok(()) => old(self)@.reweighted(key@, assets_view(weights@)) == Ok::<
                    LedgerView,
                    StakingError,
                >(final(self)@),
                Err(e) => old(self)@.reweighted(key@, assets_view(weights@)) == Err::<
                    LedgerView,
                    StakingError,
                >(e) && final(self)@ == old(self)@,
            },
            old(self)@.sound() ==> final(self)@.sound(),
    {
        proof {
            if self@.sound() {
                lemma_call_keeps_sound(
                    self@,
                    Call::SetWeights { key: key@, weights: assets_view(weights@) },
                );
            }
        }
        let (i, found) = self.pools.find(key);
        if !found {
            return Err(StakingError::NotFound);
        }
        let mut pool = Pool::new(Vec::new());
        self.pools.swap_value_at(i, &mut pool);
        pool.set_weights(weights);
        let ghost after = pool@;
        self.pools.swap_value_at(i, &mut pool);
        proof {
            assert(self@.pools =~= old(self)@.pools.update(
                i as int,
                (old(self)@.pools[i as int].0, after),
            ));
            lemma_swap_back(old(self)@.pools, i as int, after);
        }
        Ok(())
    }
}

/// Putting a well-formed pool into well-formed pools keeps them well-formed.
pub proof fn lemma_put_pools_wf(pools: Seq<(Seq<u8>, PoolView)>, key: Seq<u8>, pool: PoolView)
    requires
        pools_wf(pools),
        pool.wf(),
    ensures
        pools_wf(put(pools, key, pool)),
{
    crate::sorted_map::lemma_put_sorted(pools, key, pool);
    lemma_rank_bounds(pools, key);
    let r = rank(pools, key);
    let t = put(pools, key, pool);
    assert forall|i: int| 0 <= i < t.len() implies (#[trigger] t[i]).1.wf() by {
        if contains_key(pools, key) {
            if i != r {
                assert(t[i] == pools[i]);
            }
        } else {
            if i < r {
                assert(t[i] == pools[i]);
            } else if i > r {
                assert(t[i] == pools[i - 1]);
            }
        }
    }
}

/// Taking the pool at `i` out and setting `pool` in its place is putting
/// `pool` under the key at `i`.
pub proof fn lemma_swap_back(pools: Seq<(Seq<u8>, PoolView)>, i: int, pool: PoolView)
    requires
        pools_wf(pools),
        0 <= i < pools.len(),
    ensures
        pools.update(i, (pools[i].0, pool)) == put(pools, pools[i].0, pool),
        lookup(pools, pools[i].0) == Some(pools[i].1),
        pool.wf() ==> pools_wf(pools.update(i, (pools[i].0, pool))),
        pool == pools[i].1 ==> pools.update(i, (pools[i].0, pool)) == pools,
{
    crate::sorted_map::lemma_update_sorted(pools, i, pool);
    crate::sorted_map::lemma_rank_of_present(pools, i);
    if pool.wf() {
        lemma_put_pools_wf(pools, pools[i].0, pool);
    }
    if pool == pools[i].1 {
        assert(pools.update(i, (pools[i].0, pool)) =~= pools);
    }
}

} // verus!
