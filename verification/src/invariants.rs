//! The invariants of the ledger, and that every operation keeps them.

use crate::asset::{is_asset_map, lemma_merged_all_of_map, merged_all, AssetView};
use crate::ledger::LedgerView;
use crate::pool::PoolAccountView;
use crate::position::{lemma_distributed_keeps_map, total_weight, PositionView};
use crate::rewards::{deposited_all, deposited_one, processed, processed_one, processed_stakers, processed_walk};
use crate::sorted_map::{
    contains_key, del, keys_sorted, lemma_del_all, lemma_del_sorted, lemma_lookup_put,
    lemma_put_all, lemma_put_sorted, lemma_rank_bounds, lemma_update_sorted, lookup, put, rank,
};
use crate::stakers::PoolView;
use vstd::prelude::*;

verus! {

/// The sum of the bonded amounts of a pool's positions.
pub open spec fn bond_sum(positions: Seq<(Seq<u8>, PositionView)>) -> nat
    decreases positions.len(),
{
    if positions.len() == 0 {
        0
    } else {
        bond_sum(positions.drop_last()) + positions.last().1.bond_amount
    }
}

/// What `staker` has bonded according to `positions`: zero without a position.
pub open spec fn bond_of(positions: Seq<(Seq<u8>, PositionView)>, staker: Seq<u8>) -> nat {
    match lookup(positions, staker) {
        Some(position) => position.bond_amount,
        None => 0,
    }
}

proof fn lemma_bond_sum_update(
    s: Seq<(Seq<u8>, PositionView)>,
    i: int,
    e: (Seq<u8>, PositionView),
)
    requires
        0 <= i < s.len(),
    ensures
        bond_sum(s.update(i, e)) == bond_sum(s) - s[i].1.bond_amount + e.1.bond_amount,
    decreases s.len(),
{
    if i == s.len() - 1 {
        assert(s.update(i, e).drop_last() =~= s.drop_last());
    } else {
        assert(s.update(i, e).drop_last() =~= s.drop_last().update(i, e));
        lemma_bond_sum_update(s.drop_last(), i, e);
    }
}

proof fn lemma_bond_sum_insert(
    s: Seq<(Seq<u8>, PositionView)>,
    i: int,
    e: (Seq<u8>, PositionView),
)
    requires
        0 <= i <= s.len(),
    ensures
        bond_sum(s.insert(i, e)) == bond_sum(s) + e.1.bond_amount,
    decreases s.len(),
{
    if i == s.len() {
        assert(s.insert(i, e).drop_last() =~= s);
    } else {
        assert(s.insert(i, e).drop_last() =~= s.drop_last().insert(i, e));
        lemma_bond_sum_insert(s.drop_last(), i, e);
    }
}

proof fn lemma_bond_sum_remove(s: Seq<(Seq<u8>, PositionView)>, i: int)
    requires
        0 <= i < s.len(),
    ensures
        bond_sum(s.remove(i)) == bond_sum(s) - s[i].1.bond_amount,
    decreases s.len(),
{
    if i == s.len() - 1 {
        assert(s.remove(i) =~= s.drop_last());
    } else {
        assert(s.remove(i).drop_last() =~= s.drop_last().remove(i));
        lemma_bond_sum_remove(s.drop_last(), i);
    }
}

/// Putting a position changes the sum by the difference between what the
/// staker has bonded after and before.
pub proof fn lemma_bond_sum_put(
    positions: Seq<(Seq<u8>, PositionView)>,
    staker: Seq<u8>,
    position: PositionView,
)
    ensures
        bond_sum(put(positions, staker, position)) == bond_sum(positions) - bond_of(
            positions,
            staker,
        ) + position.bond_amount,
{
    lemma_rank_bounds(positions, staker);
    if contains_key(positions, staker) {
        lemma_bond_sum_update(positions, rank(positions, staker), (staker, position));
    } else {
        lemma_bond_sum_insert(positions, rank(positions, staker), (staker, position));
    }
}

/// Deleting a position takes what the staker has bonded out of the sum.
pub proof fn lemma_bond_sum_del(positions: Seq<(Seq<u8>, PositionView)>, staker: Seq<u8>)
    ensures
        bond_sum(del(positions, staker)) == bond_sum(positions) - bond_of(positions, staker),
{
    lemma_rank_bounds(positions, staker);
    if contains_key(positions, staker) {
        lemma_bond_sum_remove(positions, rank(positions, staker));
    }
}

/// What is kept true of every pool. Each of the four is kept by every
/// operation on its own.
#[derive(Clone, Copy, Debug, PartialEq, Eq, Structural)]
pub enum Invariant {
    /// While the staking token has not been replaced, the pool's total is
    /// the sum of what its stakers have bonded.
    Conserved,
    /// A position is kept only while something is bonded or owed.
    Tidy,
    /// No index lies above the index that follows it: the snapshot not above
    /// the live index, a position's index not above the index against which
    /// the position is settled.
    Ordered,
    /// What a position keeps to be withdrawn has one entry for each asset.
    Mapped,
}

impl PoolView {
    /// While the staking token has not been replaced, the pool's total is
    /// the sum of what its stakers have bonded.
    pub open spec fn conserved(self) -> bool {
        self.account.migration is None ==> bond_sum(self.positions)
            == self.account.total_bond_amount
    }

    /// A position is kept only while something is bonded or owed.
    pub open spec fn tidy(self) -> bool {
        forall|i: int|
            0 <= i < self.positions.len() ==> !(#[trigger] self.positions[i]).1.is_closed()
    }

    /// The snapshot does not lie above the live index, and no position's
    /// index lies above the index against which the position is settled.
    pub open spec fn ordered(self) -> bool {
        &&& self.account.migration is Some ==> self.account.migration->0.index_snapshot
            <= self.account.reward_index
        &&& forall|i: int|
            0 <= i < self.positions.len() ==> (#[trigger] self.positions[i]).1.index
                <= self.effective_index(self.positions[i].0)
    }

    /// What a position keeps to be withdrawn has one entry for each asset.
    pub open spec fn mapped(self) -> bool {
        forall|i: int|
            0 <= i < self.positions.len() ==> is_asset_map(
                (#[trigger] self.positions[i]).1.pending_withdraw,
            )
    }

    /// Whether the pool keeps the given invariant.
    pub open spec fn keeps(self, property: Invariant) -> bool {
        match property {
            Invariant::Conserved => self.conserved(),
            Invariant::Tidy => self.tidy(),
            Invariant::Ordered => self.ordered(),
            Invariant::Mapped => self.mapped(),
        }
    }

    /// All that is kept true of a pool.
    pub open spec fn sound(self) -> bool {
        self.wf() && self.conserved() && self.tidy() && self.ordered() && self.mapped()
    }

    /// What an invariant asks of each position of the pool.
    pub open spec fn asks(self, property: Invariant) -> spec_fn((Seq<u8>, PositionView)) -> bool {
        |e: (Seq<u8>, PositionView)|
            match property {
                Invariant::Conserved => true,
                Invariant::Tidy => !e.1.is_closed(),
                Invariant::Ordered => e.1.index <= self.effective_index(e.0),
                Invariant::Mapped => is_asset_map(e.1.pending_withdraw),
            }
    }
}

/// The pools are well-formed and each of them keeps the invariant.
pub open spec fn pools_keep(pools: Seq<(Seq<u8>, PoolView)>, property: Invariant) -> bool {
    keys_sorted(pools) && forall|i: int|
        0 <= i < pools.len() ==> (#[trigger] pools[i]).1.wf() && pools[i].1.keeps(property)
}

impl LedgerView {
    /// The ledger is well-formed and each of its pools keeps the invariant.
    pub open spec fn keeps(self, property: Invariant) -> bool {
        pools_keep(self.pools, property)
    }

    /// All that is kept true of a ledger: it is well-formed and its pools
    /// keep every invariant.
    pub open spec fn sound(self) -> bool {
        self.keeps(Invariant::Conserved) && self.keeps(Invariant::Tidy) && self.keeps(
            Invariant::Ordered,
        ) && self.keeps(Invariant::Mapped)
    }
}

/// A ledger that keeps an invariant is well-formed.
pub proof fn lemma_keeping_is_wf(ledger: LedgerView, property: Invariant)
    requires
        ledger.keeps(property),
    ensures
        ledger.wf(),
{
}

/// What an invariant says of the position of a staker in a pool that keeps it.
pub proof fn lemma_kept_position(pool: PoolView, staker: Seq<u8>, property: Invariant)
    requires
        pool.keeps(property),
        lookup(pool.positions, staker) is Some,
    ensures
        (pool.asks(property))((staker, lookup(pool.positions, staker)->0)),
        property == Invariant::Conserved && pool.account.migration is None ==> lookup(
            pool.positions,
            staker,
        )->0.bond_amount <= pool.account.total_bond_amount,
{
    lemma_rank_bounds(pool.positions, staker);
    lemma_bond_sum_del(pool.positions, staker);
}

/// The pool found under a key of pools that keep an invariant keeps it.
pub proof fn lemma_kept_pool(pools: Seq<(Seq<u8>, PoolView)>, key: Seq<u8>, property: Invariant)
    requires
        pools_keep(pools, property),
        lookup(pools, key) is Some,
    ensures
        lookup(pools, key)->0.wf(),
        lookup(pools, key)->0.keeps(property),
{
    lemma_rank_bounds(pools, key);
}

/// Flagging one staker changes nobody else's flag.
proof fn lemma_flag_others(pool: PoolView, staker: Seq<u8>, other: Seq<u8>)
    requires
        pool.wf(),
    ensures
        contains_key(pool.flagged(staker), other) == (other == staker || pool.is_migrated(other)),
{
    lemma_lookup_put(pool.migrated, staker, (), other);
}

/// What an invariant asks of the positions of `before` under other keys than
/// `staker`, it gets in `after`, if `after` has the same snapshot, no lower
/// index, and the same flags but for that of `staker`, which it may have
/// gained. The index against which the position of `staker` is settled is no
/// lower in `after`, and it is the live index where the staker is flagged.
proof fn lemma_others_keep(before: PoolView, after: PoolView, staker: Seq<u8>, property: Invariant)
    requires
        before.wf(),
        before.keeps(property),
        after.account.migration == before.account.migration,
        after.account.reward_index >= before.account.reward_index,
        after.migrated == before.migrated || after.migrated == before.flagged(staker),
    ensures
        forall|j: int|
            0 <= j < before.positions.len() && before.positions[j].0 != staker ==> (after.asks(
                property,
            ))(#[trigger] before.positions[j]),
        property == Invariant::Ordered ==> after.effective_index(staker)
            >= before.effective_index(staker),
        after.migrated == before.flagged(staker) && before.account.migration is Some
            ==> after.effective_index(staker) == after.account.reward_index,
{
    lemma_flag_others(before, staker, staker);
    assert forall|j: int|
        0 <= j < before.positions.len() && before.positions[j].0 != staker implies (after.asks(
        property,
    ))(#[trigger] before.positions[j]) by {
        lemma_flag_others(before, staker, before.positions[j].0);
    }
}

/// A pool with what an invariant asks of each position, and with the rest of
/// it in place, keeps the invariant.
proof fn lemma_asked_is_kept(pool: PoolView, property: Invariant)
    requires
        forall|i: int| 0 <= i < pool.positions.len() ==> (pool.asks(property))(
            #[trigger] pool.positions[i],
        ),
        property == Invariant::Conserved ==> pool.conserved(),
        property == Invariant::Ordered && pool.account.migration is Some
            ==> pool.account.migration->0.index_snapshot <= pool.account.reward_index,
    ensures
        pool.keeps(property),
{
}

/// Settling and splitting leaves what a position keeps to be withdrawn, and
/// what is paid, with one entry for each asset; it changes neither what is
/// bonded nor, beyond the settlement, the index.
pub proof fn lemma_processed_keeps_map(
    position: PositionView,
    index: nat,
    weights: Seq<AssetView>,
    do_withdraw: bool,
)
    requires
        position.processed(index, weights, do_withdraw) is Ok,
    ensures
        is_asset_map(position.pending_withdraw) ==> is_asset_map(
            position.processed(index, weights, do_withdraw)->Ok_0.0.pending_withdraw,
        ) && is_asset_map(position.processed(index, weights, do_withdraw)->Ok_0.1),
        position.processed(index, weights, do_withdraw)->Ok_0.0.bond_amount
            == position.bond_amount,
        position.processed(index, weights, do_withdraw)->Ok_0.0.index == index,
{
    let settled = position.settled(index)->Ok_0;
    if is_asset_map(position.pending_withdraw) && settled.pending_reward != 0 && total_weight(
        weights,
    ) != 0 {
        lemma_distributed_keeps_map(
            settled.pending_withdraw,
            weights,
            settled.pending_reward,
            total_weight(weights),
        );
    }
}

/// Where what positions keep to be withdrawn has one entry for each asset,
/// so have the payments of a staker's rewards: merged into nothing they are
/// themselves, and a withdrawal from one pool pays exactly what the position
/// kept to be withdrawn.
pub proof fn lemma_payments_are_map(pool: PoolView, staker: Seq<u8>, do_withdraw: bool)
    requires
        pool.keeps(Invariant::Mapped),
        pool.processed(staker, do_withdraw) is Ok,
    ensures
        merged_all(Seq::empty(), pool.processed(staker, do_withdraw)->Ok_0.1) == Some(
            pool.processed(staker, do_withdraw)->Ok_0.1,
        ),
{
    if lookup(pool.positions, staker) is Some {
        lemma_kept_position(pool, staker, Invariant::Mapped);
        lemma_processed_keeps_map(
            lookup(pool.positions, staker)->0,
            pool.effective_index(staker),
            pool.weights,
            do_withdraw,
        );
    }
    lemma_merged_all_of_map(pool.processed(staker, do_withdraw)->Ok_0.1);
}

/// Bonding keeps what a pool keeps.
pub proof fn lemma_pool_bond_keeps(
    pool: PoolView,
    staker: Seq<u8>,
    native_token: bool,
    amount: nat,
    property: Invariant,
)
    requires
        pool.wf(),
        pool.keeps(property),
        pool.bonded(staker, native_token, amount) is Ok,
    ensures
        pool.bonded(staker, native_token, amount)->Ok_0.wf(),
        pool.bonded(staker, native_token, amount)->Ok_0.keeps(property),
{
    let after = pool.bonded(staker, native_token, amount)->Ok_0;
    let position = match lookup(pool.positions, staker) {
        Some(position) => position,
        None => PositionView::fresh(native_token),
    };
    let settled = position.settled(pool.account.reward_index)->Ok_0;
    let grown = PositionView { bond_amount: settled.bond_amount + amount, ..settled };
    if lookup(pool.positions, staker) is Some {
        lemma_kept_position(pool, staker, property);
    }
    lemma_bond_sum_put(pool.positions, staker, grown);
    lemma_bond_sum_del(pool.positions, staker);
    lemma_put_sorted(pool.positions, staker, grown);
    lemma_del_sorted(pool.positions, staker);
    lemma_put_sorted(pool.migrated, staker, ());
    lemma_others_keep(pool, after, staker, property);
    if grown.is_closed() {
        lemma_del_all(pool.positions, staker, after.asks(property));
    } else {
        lemma_put_all(pool.positions, staker, grown, after.asks(property));
    }
    lemma_asked_is_kept(after, property);
}

/// Unbonding keeps what a pool keeps.
pub proof fn lemma_pool_unbond_keeps(
    pool: PoolView,
    staker: Seq<u8>,
    amount: nat,
    property: Invariant,
)
    requires
        pool.wf(),
        pool.keeps(property),
        pool.unbonded(staker, amount) is Ok,
    ensures
        pool.unbonded(staker, amount)->Ok_0.pool.wf(),
        pool.unbonded(staker, amount)->Ok_0.pool.keeps(property),
{
    let after = pool.unbonded(staker, amount)->Ok_0.pool;
    let position = lookup(pool.positions, staker)->0;
    let settled = position.settled(pool.effective_index(staker))->Ok_0;
    let shrunk = PositionView { bond_amount: (settled.bond_amount - amount) as nat, ..settled };
    lemma_kept_position(pool, staker, property);
    lemma_bond_sum_put(pool.positions, staker, shrunk);
    lemma_bond_sum_del(pool.positions, staker);
    lemma_put_sorted(pool.positions, staker, shrunk);
    lemma_del_sorted(pool.positions, staker);
    lemma_put_sorted(pool.migrated, staker, ());
    lemma_others_keep(pool, after, staker, property);
    if shrunk.bond_amount == 0 && shrunk.pending_reward == 0 {
        lemma_del_all(pool.positions, staker, after.asks(property));
    } else {
        lemma_put_all(pool.positions, staker, shrunk, after.asks(property));
    }
    lemma_asked_is_kept(after, property);
}

/// Settling a staker's rewards keeps what a pool keeps.
pub proof fn lemma_pool_process_keeps(
    pool: PoolView,
    staker: Seq<u8>,
    do_withdraw: bool,
    property: Invariant,
)
    requires
        pool.wf(),
        pool.keeps(property),
        pool.processed(staker, do_withdraw) is Ok,
    ensures
        pool.processed(staker, do_withdraw)->Ok_0.0.wf(),
        pool.processed(staker, do_withdraw)->Ok_0.0.keeps(property),
{
    let after = pool.processed(staker, do_withdraw)->Ok_0.0;
    if lookup(pool.positions, staker) is Some {
        let position = lookup(pool.positions, staker)->0;
        let settled = position.processed(
            pool.effective_index(staker),
            pool.weights,
            do_withdraw,
        )->Ok_0.0;
        lemma_kept_position(pool, staker, property);
        lemma_processed_keeps_map(position, pool.effective_index(staker), pool.weights, do_withdraw);
        lemma_bond_sum_put(pool.positions, staker, settled);
        lemma_bond_sum_del(pool.positions, staker);
        lemma_put_sorted(pool.positions, staker, settled);
        lemma_del_sorted(pool.positions, staker);
        lemma_others_keep(pool, after, staker, property);
        if settled.is_closed() {
            lemma_del_all(pool.positions, staker, after.asks(property));
        } else {
            lemma_put_all(pool.positions, staker, settled, after.asks(property));
        }
        lemma_asked_is_kept(after, property);
    }
}

/// A change of the account that keeps the total and the snapshot, and does
/// not lower the index, keeps what a pool keeps.
proof fn lemma_pool_account_keeps(pool: PoolView, account: PoolAccountView, property: Invariant)
    requires
        pool.wf(),
        pool.keeps(property),
        account.total_bond_amount == pool.account.total_bond_amount,
        account.reward_index >= pool.account.reward_index,
        account.migration == pool.account.migration || (pool.account.migration is None
            && account.migration is Some && account.migration->0.index_snapshot
            == account.reward_index && account.reward_index == pool.account.reward_index),
    ensures
        (PoolView { account, ..pool }).keeps(property),
{
    let after = PoolView { account, ..pool };
    assert forall|i: int| 0 <= i < after.positions.len() implies (after.asks(property))(
        #[trigger] after.positions[i],
    ) by {
        assert((pool.asks(property))(pool.positions[i]));
    }
    lemma_asked_is_kept(after, property);
}

/// A deposit keeps what a pool keeps.
pub proof fn lemma_pool_deposit_keeps(pool: PoolView, amount: nat, property: Invariant)
    requires
        pool.wf(),
        pool.keeps(property),
        pool.account.deposited(amount) is Ok,
    ensures
        (PoolView { account: pool.account.deposited(amount)->Ok_0, ..pool }).keeps(property),
{
    lemma_pool_account_keeps(pool, pool.account.deposited(amount)->Ok_0, property);
}

/// Replacing the staking token keeps what a pool keeps.
pub proof fn lemma_pool_migrate_keeps(
    pool: PoolView,
    new_staking_token: Seq<u8>,
    property: Invariant,
)
    requires
        pool.wf(),
        pool.keeps(property),
        pool.account.migration is None,
    ensures
        (PoolView { account: pool.account.migrated_to(new_staking_token), ..pool }).keeps(
            property,
        ),
{
    lemma_pool_account_keeps(pool, pool.account.migrated_to(new_staking_token), property);
}

/// A pool that was just registered keeps every invariant.
pub proof fn lemma_fresh_pool_keeps(staking_token: Seq<u8>, property: Invariant)
    ensures
        (PoolView {
            account: PoolAccountView::fresh(staking_token),
            weights: Seq::empty(),
            positions: Seq::empty(),
            migrated: Seq::empty(),
        }).wf(),
        (PoolView {
            account: PoolAccountView::fresh(staking_token),
            weights: Seq::empty(),
            positions: Seq::empty(),
            migrated: Seq::empty(),
        }).keeps(property),
{
}

/// Putting a pool that keeps an invariant into pools that keep it keeps it.
pub proof fn lemma_put_pools_keep(
    pools: Seq<(Seq<u8>, PoolView)>,
    key: Seq<u8>,
    pool: PoolView,
    property: Invariant,
)
    requires
        pools_keep(pools, property),
        pool.wf(),
        pool.keeps(property),
    ensures
        pools_keep(put(pools, key, pool), property),
{
    lemma_put_sorted(pools, key, pool);
    lemma_put_all(pools, key, pool, |e: (Seq<u8>, PoolView)| e.1.wf() && e.1.keeps(property));
}

/// A deposit keeps what the pools keep.
pub proof fn lemma_deposited_one_keeps(
    pools: Seq<(Seq<u8>, PoolView)>,
    reward: AssetView,
    property: Invariant,
)
    requires
        pools_keep(pools, property),
        deposited_one(pools, reward) is Ok,
    ensures
        pools_keep(deposited_one(pools, reward)->Ok_0, property),
{
    let pool = lookup(pools, reward.info.id)->0;
    lemma_kept_pool(pools, reward.info.id, property);
    lemma_pool_deposit_keeps(pool, reward.amount, property);
    lemma_put_pools_keep(
        pools,
        reward.info.id,
        PoolView { account: pool.account.deposited(reward.amount)->Ok_0, ..pool },
        property,
    );
}

/// Deposits keep what the pools keep.
pub proof fn lemma_deposited_all_keeps(
    pools: Seq<(Seq<u8>, PoolView)>,
    rewards: Seq<AssetView>,
    property: Invariant,
)
    requires
        pools_keep(pools, property),
        deposited_all(pools, rewards) is Ok,
    ensures
        pools_keep(deposited_all(pools, rewards)->Ok_0, property),
    decreases rewards.len(),
{
    if rewards.len() > 0 {
        lemma_deposited_all_keeps(pools, rewards.drop_last(), property);
        lemma_deposited_one_keeps(
            deposited_all(pools, rewards.drop_last())->Ok_0,
            rewards.last(),
            property,
        );
    }
}

/// Settling a staker's rewards in one pool keeps what the pools keep.
pub proof fn lemma_processed_one_keeps(
    pools: Seq<(Seq<u8>, PoolView)>,
    key: Seq<u8>,
    staker: Seq<u8>,
    do_withdraw: bool,
    property: Invariant,
)
    requires
        pools_keep(pools, property),
        processed_one(pools, key, staker, do_withdraw) is Ok,
    ensures
        pools_keep(processed_one(pools, key, staker, do_withdraw)->Ok_0.0, property),
{
    if lookup(pools, key) is Some {
        let pool = lookup(pools, key)->0;
        lemma_kept_pool(pools, key, property);
        lemma_pool_process_keeps(pool, staker, do_withdraw, property);
        lemma_put_pools_keep(pools, key, pool.processed(staker, do_withdraw)->Ok_0.0, property);
    }
}

/// Settling a staker's rewards pool after pool keeps what the pools keep,
/// and keeps their number.
pub proof fn lemma_processed_walk_keeps(
    pools: Seq<(Seq<u8>, PoolView)>,
    staker: Seq<u8>,
    do_withdraw: bool,
    n: int,
    property: Invariant,
)
    requires
        pools_keep(pools, property),
        n <= pools.len(),
        processed_walk(pools, staker, do_withdraw, n) is Ok,
    ensures
        pools_keep(processed_walk(pools, staker, do_withdraw, n)->Ok_0.0, property),
        processed_walk(pools, staker, do_withdraw, n)->Ok_0.0.len() == pools.len(),
    decreases n,
{
    if n > 0 {
        lemma_processed_walk_keeps(pools, staker, do_withdraw, n - 1, property);
        let done = processed_walk(pools, staker, do_withdraw, n - 1)->Ok_0.0;
        let pool = done[n - 1].1;
        let after = pool.processed(staker, do_withdraw)->Ok_0.0;
        lemma_pool_process_keeps(pool, staker, do_withdraw, property);
        lemma_update_sorted(done, n - 1, after);
        lemma_put_pools_keep(done, done[n - 1].0, after, property);
    }
}

/// Settling a staker's rewards keeps what the pools keep.
pub proof fn lemma_processed_keeps(
    pools: Seq<(Seq<u8>, PoolView)>,
    staker: Seq<u8>,
    key: Option<Seq<u8>>,
    do_withdraw: bool,
    property: Invariant,
)
    requires
        pools_keep(pools, property),
        processed(pools, staker, key, do_withdraw) is Ok,
    ensures
        pools_keep(processed(pools, staker, key, do_withdraw)->Ok_0.0, property),
{
    match key {
        Some(key) => lemma_processed_one_keeps(pools, key, staker, do_withdraw, property),
        None => lemma_processed_walk_keeps(
            pools,
            staker,
            do_withdraw,
            pools.len() as int,
            property,
        ),
    }
}

/// Settling the rewards of several stakers keeps what the pools keep.
pub proof fn lemma_processed_stakers_keeps(
    pools: Seq<(Seq<u8>, PoolView)>,
    stakers: Seq<Seq<u8>>,
    key: Option<Seq<u8>>,
    property: Invariant,
)
    requires
        pools_keep(pools, property),
        processed_stakers(pools, stakers, key) is Ok,
    ensures
        pools_keep(processed_stakers(pools, stakers, key)->Ok_0, property),
    decreases stakers.len(),
{
    if stakers.len() > 0 {
        lemma_processed_stakers_keeps(pools, stakers.drop_last(), key, property);
        lemma_processed_keeps(
            processed_stakers(pools, stakers.drop_last(), key)->Ok_0,
            stakers.last(),
            key,
            false,
            property,
        );
    }
}

} // verus!
