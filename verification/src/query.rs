//! What a staker holds and has earned, read without changing the ledger.

use crate::asset::{assets_view, Asset, AssetInfo, AssetInfoView, AssetView};
use crate::bytes::copy_bytes;
use crate::error::StakingError;
use crate::ledger::{Ledger, LedgerView};
use crate::pool::{PoolAccountView, SnapshotView};
use crate::position::before_share_change;
use crate::rewards::key_view;
use crate::bytes::{lemma_lex_trichotomy, lex_lt};
use crate::sorted_map::{
    contains_key, keys_sorted, lemma_absent_everywhere, lemma_rank_bounds, lemma_rank_of_present,
    lemma_rank_splits, lookup, rank, SortedMap,
};
use crate::stakers::{Pool, PoolView};
use vstd::prelude::*;

verus! {

/// The page size where none is asked for.
pub const DEFAULT_LIMIT: u32 = 10;

/// The largest page size.
pub const MAX_LIMIT: u32 = 30;

/// The direction in which stakers are listed.
#[derive(Clone, Copy, Debug, PartialEq, Eq, Structural)]
pub enum OrderBy {
    Ascending,
    Descending,
}

/// What a staker holds in one pool.
#[derive(Debug, PartialEq, Eq)]
pub struct RewardInfoResponseItem {
    pub asset_info: AssetInfo,
    pub bond_amount: u128,
    /// The pending reward as a settlement at this moment would leave it.
    pub pending_reward: u128,
    pub pending_withdraw: Vec<Asset>,
    /// `Some(true)` where the staker's rewards stop at the pool's snapshot.
    pub should_migrate: Option<bool>,
}

/// The model of a response item.
pub struct ItemView {
    pub asset_info: AssetInfoView,
    pub bond_amount: nat,
    pub pending_reward: nat,
    pub pending_withdraw: Seq<AssetView>,
    pub should_migrate: Option<bool>,
}

impl View for RewardInfoResponseItem {
    type V = ItemView;

    open spec fn view(&self) -> ItemView {
        ItemView {
            asset_info: self.asset_info@,
            bond_amount: self.bond_amount as nat,
            pending_reward: self.pending_reward as nat,
            pending_withdraw: assets_view(self.pending_withdraw@),
            should_migrate: self.should_migrate,
        }
    }
}

/// The models of a list of response items.
pub open spec fn items_view(list: Seq<RewardInfoResponseItem>) -> Seq<ItemView> {
    list.map_values(|i: RewardInfoResponseItem| i@)
}

/// What a staker holds, pool by pool.
#[derive(Debug, PartialEq, Eq)]
pub struct RewardInfoResponse {
    pub staker_addr: Vec<u8>,
    pub reward_infos: Vec<RewardInfoResponseItem>,
}

/// The model of a response.
pub struct ResponseView {
    pub staker_addr: Seq<u8>,
    pub reward_infos: Seq<ItemView>,
}

impl View for RewardInfoResponse {
    type V = ResponseView;

    open spec fn view(&self) -> ResponseView {
        ResponseView { staker_addr: self.staker_addr@, reward_infos: items_view(self.reward_infos@) }
    }
}

/// The models of a list of responses.
pub open spec fn responses_view(list: Seq<RewardInfoResponse>) -> Seq<ResponseView> {
    list.map_values(|r: RewardInfoResponse| r@)
}

/// The state of a pool.
#[derive(Debug, PartialEq, Eq)]
pub struct PoolInfoResponse {
    pub asset_info: AssetInfo,
    pub staking_token: Vec<u8>,
    pub total_bond_amount: u128,
    pub reward_index: u128,
    pub pending_reward: u128,
    pub migration_deprecated_staking_token: Option<Vec<u8>>,
    pub migration_index_snapshot: Option<u128>,
}

/// The model of a pool's state: the asset and the pool's account.
pub struct PoolInfoView {
    pub asset_info: AssetInfoView,
    pub account: PoolAccountView,
}

impl View for PoolInfoResponse {
    type V = PoolInfoView;

    open spec fn view(&self) -> PoolInfoView {
        PoolInfoView {
            asset_info: self.asset_info@,
            account: PoolAccountView {
                staking_token: self.staking_token@,
                total_bond_amount: self.total_bond_amount as nat,
                reward_index: self.reward_index as nat,
                pending_reward: self.pending_reward as nat,
                migration: match (
                    self.migration_deprecated_staking_token,
                    self.migration_index_snapshot,
                ) {
                    (Some(token), Some(index)) => Some(
                        SnapshotView {
                            index_snapshot: index as nat,
                            deprecated_staking_token: token@,
                        },
                    ),
                    _ => None,
                },
            },
        }
    }
}

/// The page size for the limit that was asked for.
pub open spec fn page_limit(limit: Option<u32>) -> nat {
    match limit {
        Some(n) => if n < MAX_LIMIT {
            n as nat
        } else {
            MAX_LIMIT as nat
        },
        None => DEFAULT_LIMIT as nat,
    }
}

/// Whether the order that was asked for is descending. The default is ascending.
pub open spec fn is_descending(order: Option<OrderBy>) -> bool {
    order == Some(OrderBy::Descending)
}

/// The index of the first staker of a page and the page's length. Ascending,
/// a page starts behind the cursor, or at the least staker; descending, it
/// starts before the cursor, or at the greatest staker, and runs downwards.
pub open spec fn page_bounds<T>(
    entries: Seq<(Seq<u8>, T)>,
    start_after: Option<Seq<u8>>,
    limit: nat,
    descending: bool,
) -> (int, nat) {
    if descending {
        let end = match start_after {
            Some(cursor) => rank(entries, cursor),
            None => entries.len() as int,
        };
        (
            end - 1,
            if limit < end {
                limit
            } else {
                end as nat
            },
        )
    } else {
        let start = match start_after {
            Some(cursor) => rank(entries, cursor) + if contains_key(entries, cursor) {
                1int
            } else {
                0int
            },
            None => 0,
        };
        (
            start,
            if limit < entries.len() - start {
                limit
            } else {
                (entries.len() - start) as nat
            },
        )
    }
}

/// The stakers of a page, in the order that was asked for.
pub open spec fn page<T>(
    entries: Seq<(Seq<u8>, T)>,
    start_after: Option<Seq<u8>>,
    limit: nat,
    descending: bool,
) -> Seq<Seq<u8>> {
    let (first, count) = page_bounds(entries, start_after, limit, descending);
    Seq::new(
        count,
        |j: int|
            if descending {
                entries[first - j].0
            } else {
                entries[first + j].0
            },
    )
}

impl PoolView {
    /// What `staker` holds in the pool, as a settlement at this moment would
    /// leave it: nothing where the staker has no position. The item names the
    /// asset `asset`, or, where none is given, the asset that the position's
    /// kind and the pool's key make up.
    pub open spec fn reward_info(self, key: Seq<u8>, staker: Seq<u8>, asset: Option<AssetInfoView>)
        -> Result<Option<ItemView>, StakingError> {
        match lookup(self.positions, staker) {
            None => Ok(None),
            Some(position) => match position.settled(self.effective_index(staker)) {
                Err(e) => Err(e),
                Ok(settled) => Ok(
                    Some(
                        ItemView {
                            asset_info: match asset {
                                Some(asset) => asset,
                                None => AssetInfoView { native: position.native_token, id: key },
                            },
                            bond_amount: settled.bond_amount,
                            pending_reward: settled.pending_reward,
                            pending_withdraw: settled.pending_withdraw,
                            should_migrate: if self.uses_snapshot(staker) {
                                Some(true)
                            } else {
                                None
                            },
                        },
                    ),
                ),
            },
        }
    }

    /// The responses for `stakers`, each with what the staker holds in the pool.
    pub open spec fn reward_infos_of(self, key: Seq<u8>, stakers: Seq<Seq<u8>>, asset: AssetInfoView)
        -> Result<Seq<ResponseView>, StakingError>
        decreases stakers.len(),
    {
        if stakers.len() == 0 {
            Ok(Seq::empty())
        } else {
            match self.reward_infos_of(key, stakers.drop_last(), asset) {
                Err(e) => Err(e),
                Ok(done) => match self.reward_info(key, stakers.last(), Some(asset)) {
                    Err(e) => Err(e),
                    Ok(item) => Ok(
                        done.push(
                            ResponseView {
                                staker_addr: stakers.last(),
                                reward_infos: match item {
                                    Some(item) => seq![item],
                                    None => Seq::empty(),
                                },
                            },
                        ),
                    ),
                },
            }
        }
    }
}

/// What `staker` holds in the first `n` pools, in ascending order of their keys.
pub open spec fn reward_infos_walk(pools: Seq<(Seq<u8>, PoolView)>, staker: Seq<u8>, n: int)
    -> Result<Seq<ItemView>, StakingError>
    decreases n,
{
    if n <= 0 {
        Ok(Seq::empty())
    } else {
        match reward_infos_walk(pools, staker, n - 1) {
            Err(e) => Err(e),
            Ok(done) => match pools[n - 1].1.reward_info(pools[n - 1].0, staker, None) {
                Err(e) => Err(e),
                Ok(Some(item)) => Ok(done.push(item)),
                Ok(None) => Ok(done),
            },
        }
    }
}

impl LedgerView {
    /// What `staker` holds: in the pool of `asset`, or in every pool.
    pub open spec fn query_reward_info(self, staker: Seq<u8>, asset: Option<AssetInfoView>)
        -> Result<ResponseView, StakingError> {
        let items = match asset {
            Some(asset) => match self.pool(asset.id) {
                None => Ok(Seq::empty()),
                Some(pool) => match pool.reward_info(asset.id, staker, Some(asset)) {
                    Err(e) => Err(e),
                    Ok(Some(item)) => Ok(seq![item]),
                    Ok(None) => Ok(Seq::empty()),
                },
            },
            None => reward_infos_walk(self.pools, staker, self.pools.len() as int),
        };
        match items {
            Err(e) => Err(e),
            Ok(reward_infos) => Ok(ResponseView { staker_addr: staker, reward_infos }),
        }
    }

    /// A page of the stakers of the pool of `asset`, each with what the
    /// staker holds in that pool. An asset without a pool has no stakers.
    pub open spec fn query_all_reward_infos(
        self,
        asset: AssetInfoView,
        start_after: Option<Seq<u8>>,
        limit: Option<u32>,
        order: Option<OrderBy>,
    ) -> Result<Seq<ResponseView>, StakingError> {
        match self.pool(asset.id) {
            None => Ok(Seq::empty()),
            Some(pool) => pool.reward_infos_of(
                asset.id,
                page(pool.positions, start_after, page_limit(limit), is_descending(order)),
                asset,
            ),
        }
    }
}

/// An ascending page holds stakers of the pool that come after the cursor,
/// in ascending order, and it leaves out no such staker unless it is full and
/// the staker comes after its last.
pub proof fn lemma_page_ascending<T>(
    entries: Seq<(Seq<u8>, T)>,
    start_after: Option<Seq<u8>>,
    limit: nat,
)
    requires
        keys_sorted(entries),
    ensures
        page(entries, start_after, limit, false).len() <= limit,
        forall|j: int|
            0 <= j < page(entries, start_after, limit, false).len() ==> contains_key(
                entries,
                #[trigger] page(entries, start_after, limit, false)[j],
            ) && (start_after matches Some(cursor) ==> lex_lt(
                cursor,
                page(entries, start_after, limit, false)[j],
            )),
        forall|j: int, k: int|
            0 <= j < k < page(entries, start_after, limit, false).len() ==> lex_lt(
                #[trigger] page(entries, start_after, limit, false)[j],
                #[trigger] page(entries, start_after, limit, false)[k],
            ),
        forall|i: int|
            0 <= i < entries.len() && (start_after matches Some(cursor) ==> lex_lt(
                cursor,
                (#[trigger] entries[i]).0,
            )) && (page(entries, start_after, limit, false).len() < limit || (page(
                entries,
                start_after,
                limit,
                false,
            ).len() > 0 && !lex_lt(page(entries, start_after, limit, false).last(), entries[i].0)))
                ==> page(entries, start_after, limit, false).contains(entries[i].0),
{
    let p = page(entries, start_after, limit, false);
    let (first, count) = page_bounds(entries, start_after, limit, false);
    if let Some(cursor) = start_after {
        lemma_rank_bounds(entries, cursor);
        lemma_rank_splits(entries, cursor);
        if !contains_key(entries, cursor) {
            lemma_absent_everywhere(entries, cursor);
        }
        assert forall|i: int| first <= i < entries.len() implies lex_lt(
            cursor,
            (#[trigger] entries[i]).0,
        ) by {
            lemma_lex_trichotomy(cursor, entries[i].0);
        }
        assert forall|i: int| 0 <= i < first implies !lex_lt(cursor, (#[trigger] entries[i]).0) by {
            lemma_lex_trichotomy(cursor, entries[i].0);
        }
    }
    assert forall|j: int| 0 <= j < p.len() implies contains_key(entries, #[trigger] p[j]) && (
    start_after matches Some(cursor) ==> lex_lt(cursor, p[j])) by {
        lemma_rank_of_present(entries, first + j);
        assert(p[j] == entries[first + j].0);
    }
    assert forall|j: int, k: int| 0 <= j < k < p.len() implies lex_lt(
        #[trigger] p[j],
        #[trigger] p[k],
    ) by {
        assert(p[j] == entries[first + j].0);
        assert(p[k] == entries[first + k].0);
    }
    assert forall|i: int|
        0 <= i < entries.len() && (start_after matches Some(cursor) ==> lex_lt(
            cursor,
            (#[trigger] entries[i]).0,
        )) && (p.len() < limit || (p.len() > 0 && !lex_lt(p.last(), entries[i].0))) implies p.contains(
        entries[i].0,
    ) by {
        assert(first <= i);
        if p.len() > 0 && i >= first + count {
            assert(p.last() == entries[first + count - 1].0);
            assert(lex_lt(entries[first + count - 1].0, entries[i].0));
        }
        assert(p[i - first] == entries[i].0);
    }
}

/// A descending page holds stakers of the pool that come before the cursor,
/// in descending order, and it leaves out no such staker unless it is full
/// and the staker comes before its last.
pub proof fn lemma_page_descending<T>(
    entries: Seq<(Seq<u8>, T)>,
    start_after: Option<Seq<u8>>,
    limit: nat,
)
    requires
        keys_sorted(entries),
    ensures
        page(entries, start_after, limit, true).len() <= limit,
        forall|j: int|
            0 <= j < page(entries, start_after, limit, true).len() ==> contains_key(
                entries,
                #[trigger] page(entries, start_after, limit, true)[j],
            ) && (start_after matches Some(cursor) ==> lex_lt(
                page(entries, start_after, limit, true)[j],
                cursor,
            )),
        forall|j: int, k: int|
            0 <= j < k < page(entries, start_after, limit, true).len() ==> lex_lt(
                #[trigger] page(entries, start_after, limit, true)[k],
                #[trigger] page(entries, start_after, limit, true)[j],
            ),
        forall|i: int|
            0 <= i < entries.len() && (start_after matches Some(cursor) ==> lex_lt(
                (#[trigger] entries[i]).0,
                cursor,
            )) && (page(entries, start_after, limit, true).len() < limit || (page(
                entries,
                start_after,
                limit,
                true,
            ).len() > 0 && !lex_lt(entries[i].0, page(entries, start_after, limit, true).last())))
                ==> page(entries, start_after, limit, true).contains(entries[i].0),
{
    let p = page(entries, start_after, limit, true);
    let (first, count) = page_bounds(entries, start_after, limit, true);
    if let Some(cursor) = start_after {
        lemma_rank_bounds(entries, cursor);
        lemma_rank_splits(entries, cursor);
    }
    assert forall|j: int| 0 <= j < p.len() implies contains_key(entries, #[trigger] p[j]) && (
    start_after matches Some(cursor) ==> lex_lt(p[j], cursor)) by {
        lemma_rank_of_present(entries, first - j);
        assert(p[j] == entries[first - j].0);
    }
    assert forall|j: int, k: int| 0 <= j < k < p.len() implies lex_lt(
        #[trigger] p[k],
        #[trigger] p[j],
    ) by {
        assert(p[j] == entries[first - j].0);
        assert(p[k] == entries[first - k].0);
    }
    assert forall|i: int|
        0 <= i < entries.len() && (start_after matches Some(cursor) ==> lex_lt(
            (#[trigger] entries[i]).0,
            cursor,
        )) && (p.len() < limit || (p.len() > 0 && !lex_lt(entries[i].0, p.last()))) implies p.contains(
        entries[i].0,
    ) by {
        assert(i <= first);
        if p.len() > 0 && i <= first - count {
            assert(p.last() == entries[first - count + 1].0);
            assert(lex_lt(entries[i].0, entries[first - count + 1].0));
        }
        assert(p[first - i] == entries[i].0);
    }
}

/// A failure on the first `n` pools is the failure of every longer walk.
pub proof fn lemma_infos_walk_prefix_fails(
    pools: Seq<(Seq<u8>, PoolView)>,
    staker: Seq<u8>,
    n: int,
    m: int,
)
    requires
        0 <= n <= m,
        reward_infos_walk(pools, staker, n) is Err,
    ensures
        reward_infos_walk(pools, staker, m) == reward_infos_walk(pools, staker, n),
    decreases m - n,
{
    if n < m {
        lemma_infos_walk_prefix_fails(pools, staker, n, m - 1);
    }
}

/// A failure on a prefix of the stakers is the failure of the whole list.
pub proof fn lemma_infos_of_prefix_fails(
    pool: PoolView,
    key: Seq<u8>,
    stakers: Seq<Seq<u8>>,
    asset: AssetInfoView,
    n: int,
)
    requires
        0 <= n <= stakers.len(),
        pool.reward_infos_of(key, stakers.take(n), asset) is Err,
    ensures
        pool.reward_infos_of(key, stakers, asset) == pool.reward_infos_of(
            key,
            stakers.take(n),
            asset,
        ),
    decreases stakers.len() - n,
{
    if n == stakers.len() {
        assert(stakers.take(n) =~= stakers);
    } else {
        assert(stakers.drop_last().take(n) =~= stakers.take(n));
        lemma_infos_of_prefix_fails(pool, key, stakers.drop_last(), asset, n);
    }
}

impl Pool {
    /// What `staker` holds in the pool, as a settlement at this moment would
    /// leave it. The pool's key is `key`.
    pub fn reward_info(&self, key: &Vec<u8>, staker: &Vec<u8>, asset_info: &Option<AssetInfo>) -> (r:
        Result<Option<RewardInfoResponseItem>, StakingError>)
        ensures
            match self@.reward_info(
                key@,
                staker@,
                match *asset_info {
                    Some(asset) => Some(asset@),
                    None => None,
                },
            ) {
                Err(e) => r == Err::<Option<RewardInfoResponseItem>, StakingError>(e),
                Ok(None) => r == Ok::<Option<RewardInfoResponseItem>, StakingError>(None),
                Ok(Some(item)) => match r {
                    Ok(Some(found)) => found@ == item,
                    _ => false,
                },
            },
    {
        let mut position = match self.positions.get(staker) {
            Some(position) => position.clone(),
            None => {
                return Ok(None);
            },
        };
        let native_token = position.native_token;
        match before_share_change(self.effective_index(staker), &mut position) {
            Ok(()) => {},
            Err(e) => {
                return Err(e);
            },
        }
        Ok(
            Some(
                RewardInfoResponseItem {
                    asset_info: match asset_info {
                        Some(asset) => asset.clone(),
                        None => AssetInfo::from_key(native_token, copy_bytes(key)),
                    },
                    bond_amount: position.bond_amount,
                    pending_reward: position.pending_reward,
                    pending_withdraw: position.pending_withdraw,
                    should_migrate: if self.uses_snapshot(staker) {
                        Some(true)
                    } else {
                        None
                    },
                },
            ),
        )
    }
}

/// The state of the pool of `asset_info`.
pub fn query_pool_info(ledger: &Ledger, asset_info: &AssetInfo) -> (r: Result<
    PoolInfoResponse,
    StakingError,
>)
    ensures
        match ledger@.pool(asset_info@.id) {
            None => r == Err::<PoolInfoResponse, StakingError>(StakingError::NotFound),
            Some(pool) => r matches Ok(response) && response@ == (PoolInfoView {
                asset_info: asset_info@,
                account: pool.account,
            }) && (response.migration_deprecated_staking_token is Some
                <==> pool.account.migration is Some) && (response.migration_index_snapshot is Some
                <==> pool.account.migration is Some),
        },
{
    let key = asset_info.to_vec();
    let pool = match ledger.pools.get(&key) {
        Some(pool) => pool,
        None => {
            return Err(StakingError::NotFound);
        },
    };
    let (token, index) = match &pool.account.migration {
        Some(snapshot) => (
            Some(copy_bytes(&snapshot.deprecated_staking_token)),
            Some(snapshot.index_snapshot),
        ),
        None => (None, None),
    };
    Ok(
        PoolInfoResponse {
            asset_info: asset_info.clone(),
            staking_token: copy_bytes(&pool.account.staking_token),
            total_bond_amount: pool.account.total_bond_amount,
            reward_index: pool.account.reward_index,
            pending_reward: pool.account.pending_reward,
            migration_deprecated_staking_token: token,
            migration_index_snapshot: index,
        },
    )
}

/// Where a page starts in `map` and how many of its keys it has: going up
/// from the first index or, descending, going down from it.
pub fn page_range<V: View>(
    map: &SortedMap<V>,
    start_after: &Option<Vec<u8>>,
    limit: Option<u32>,
    descending: bool,
) -> (r: (usize, usize))
    ensures
        r.1 == page_bounds(map@, key_view(*start_after), page_limit(limit), descending).1,
        r.1 > 0 ==> r.0 == page_bounds(
            map@,
            key_view(*start_after),
            page_limit(limit),
            descending,
        ).0,
        descending ==> r.1 <= r.0 + 1 && (r.1 > 0 ==> r.0 < map@.len()),
        !descending ==> r.0 + r.1 <= map@.len(),
{
    let wanted: usize = match limit {
        Some(n) => if n < MAX_LIMIT {
            n as usize
        } else {
            MAX_LIMIT as usize
        },
        None => DEFAULT_LIMIT as usize,
    };
    let len = map.len();
    if descending {
        let end = match start_after {
            Some(cursor) => map.find(cursor).0,
            None => len,
        };
        (
            if end > 0 {
                end - 1
            } else {
                0
            },
            if wanted < end {
                wanted
            } else {
                end
            },
        )
    } else {
        let start = match start_after {
            Some(cursor) => {
                let (at, found) = map.find(cursor);
                if found {
                    at + 1
                } else {
                    at
                }
            },
            None => 0,
        };
        (
            start,
            if wanted < len - start {
                wanted
            } else {
                len - start
            },
        )
    }
}

/// What `staker_addr` holds: in the pool of `asset_info`, or in every
/// pool where no asset is given.
pub fn query_reward_info(ledger: &Ledger, staker_addr: &Vec<u8>, asset_info: &Option<AssetInfo>) -> (r:
    Result<RewardInfoResponse, StakingError>)
    ensures
        match r {
            Ok(response) => ledger@.query_reward_info(
                staker_addr@,
                match *asset_info {
                    Some(asset) => Some(asset@),
                    None => None,
                },
            ) == Ok::<ResponseView, StakingError>(response@),
            Err(e) => ledger@.query_reward_info(
                staker_addr@,
                match *asset_info {
                    Some(asset) => Some(asset@),
                    None => None,
                },
            ) == Err::<ResponseView, StakingError>(e),
        },
{
    let mut reward_infos: Vec<RewardInfoResponseItem> = Vec::new();
    assert(items_view(reward_infos@) =~= Seq::<ItemView>::empty());
    match asset_info {
        Some(asset) => {
            let key = asset.to_vec();
            match ledger.pools.get(&key) {
                None => {},
                Some(pool) => match pool.reward_info(&key, staker_addr, asset_info) {
                    Ok(Some(item)) => {
                        reward_infos.push(item);
                        assert(items_view(reward_infos@) =~= seq![item@]);
                    },
                    Ok(None) => {},
                    Err(e) => {
                        return Err(e);
                    },
                },
            }
        },
        None => {
            let mut i: usize = 0;
            while i < ledger.pools.len()
                invariant
                    i <= ledger.pools@.len(),
                    *asset_info is None,
                    reward_infos_walk(ledger@.pools, staker_addr@, i as int) == Ok::<
                        Seq<ItemView>,
                        StakingError,
                    >(items_view(reward_infos@)),
                decreases ledger.pools@.len() - i,
            {
                let ghost done = items_view(reward_infos@);
                match ledger.pools.value_at(i).reward_info(
                    ledger.pools.key_at(i),
                    staker_addr,
                    asset_info,
                ) {
                    Ok(Some(item)) => {
                        reward_infos.push(item);
                        assert(items_view(reward_infos@) =~= done.push(item@));
                    },
                    Ok(None) => {},
                    Err(e) => {
                        proof {
                            lemma_infos_walk_prefix_fails(
                                ledger@.pools,
                                staker_addr@,
                                i + 1,
                                ledger@.pools.len() as int,
                            );
                        }
                        return Err(e);
                    },
                }
                i += 1;
            }
        },
    }
    Ok(RewardInfoResponse { staker_addr: copy_bytes(staker_addr), reward_infos })
}

/// A page of the stakers of the pool of `asset_info`, each with what the
/// staker holds in that pool. The page has at most `limit` stakers, ten
/// where no limit is given and never more than thirty. It starts behind
/// `start_after` in the direction of `order`, which is ascending where
/// none is given.
pub fn query_all_reward_infos(
    ledger: &Ledger,
    asset_info: &AssetInfo,
    start_after: &Option<Vec<u8>>,
    limit: Option<u32>,
    order: Option<OrderBy>,
) -> (r: Result<Vec<RewardInfoResponse>, StakingError>)
    ensures
        match r {
            Ok(responses) => ledger@.query_all_reward_infos(
                asset_info@,
                key_view(*start_after),
                limit,
                order,
            ) == Ok::<Seq<ResponseView>, StakingError>(responses_view(responses@)),
            Err(e) => ledger@.query_all_reward_infos(
                asset_info@,
                key_view(*start_after),
                limit,
                order,
            ) == Err::<Seq<ResponseView>, StakingError>(e),
        },
{
    let mut responses: Vec<RewardInfoResponse> = Vec::new();
    assert(responses_view(responses@) =~= Seq::<ResponseView>::empty());
    let key = asset_info.to_vec();
    let pool = match ledger.pools.get(&key) {
        Some(pool) => pool,
        None => {
            return Ok(responses);
        },
    };
    let descending = match order {
        Some(OrderBy::Descending) => true,
        _ => false,
    };
    let (first, count) = page_range(&pool.positions, start_after, limit, descending);
    let len = pool.positions.len();
    let ghost stakers = page(
        pool@.positions,
        key_view(*start_after),
        page_limit(limit),
        is_descending(order),
    );
    let some_asset = Some(asset_info.clone());
    let mut j: usize = 0;
    while j < count
        invariant
            j <= count,
            count == stakers.len(),
            some_asset matches Some(a) && a@ == asset_info@,
            key@ == asset_info@.id,
            len == pool.positions@.len(),
            descending ==> count <= first + 1 && (count > 0 ==> first < len),
            !descending ==> first + count <= len,
            lookup(ledger@.pools, asset_info@.id) == Some(pool@),
            stakers == page(
                pool@.positions,
                key_view(*start_after),
                page_limit(limit),
                is_descending(order),
            ),
            forall|k: int|
                0 <= k < count ==> #[trigger] stakers[k] == if descending {
                    pool.positions@[first - k].0
                } else {
                    pool.positions@[first + k].0
                },
            pool@.reward_infos_of(key@, stakers.take(j as int), asset_info@) == Ok::<
                Seq<ResponseView>,
                StakingError,
            >(responses_view(responses@)),
        decreases count - j,
    {
        let at = if descending {
            first - j
        } else {
            first + j
        };
        let staker = pool.positions.key_at(at);
        let ghost done = responses_view(responses@);
        proof {
            assert(stakers.take(j + 1).drop_last() =~= stakers.take(j as int));
        }
        let mut reward_infos: Vec<RewardInfoResponseItem> = Vec::new();
        assert(items_view(reward_infos@) =~= Seq::<ItemView>::empty());
        match pool.reward_info(&key, staker, &some_asset) {
            Ok(Some(item)) => {
                reward_infos.push(item);
                assert(items_view(reward_infos@) =~= seq![item@]);
            },
            Ok(None) => {},
            Err(e) => {
                proof {
                    lemma_infos_of_prefix_fails(pool@, key@, stakers, asset_info@, j + 1);
                }
                return Err(e);
            },
        }
        responses.push(RewardInfoResponse { staker_addr: copy_bytes(staker), reward_infos });
        assert(responses_view(responses@) =~= done.push(
            ResponseView { staker_addr: staker@, reward_infos: items_view(reward_infos@) },
        ));
        j += 1;
    }
    assert(stakers.take(count as int) =~= stakers);
    Ok(responses)
}

} // verus!
