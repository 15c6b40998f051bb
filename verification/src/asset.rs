//! Asset identities and amounts of an asset.

use crate::bytes::{bytes_eq, copy_bytes};
use crate::error::StakingError;
use vstd::prelude::*;

verus! {

/// The identity of an asset: a native denomination, or a token contract by
/// its canonical address.
#[derive(Debug, PartialEq, Eq)]
pub enum AssetInfo {
    NativeToken { denom: Vec<u8> },
    Token { contract_addr: Vec<u8> },
}

/// The model of an asset identity.
pub struct AssetInfoView {
    pub native: bool,
    pub id: Seq<u8>,
}

impl View for AssetInfo {
    type V = AssetInfoView;

    open spec fn view(&self) -> AssetInfoView {
        match *self {
            AssetInfo::NativeToken { denom } => AssetInfoView { native: true, id: denom@ },
            AssetInfo::Token { contract_addr } => AssetInfoView { native: false, id: contract_addr@ },
        }
    }
}

impl Clone for AssetInfo {
    fn clone(&self) -> (r: Self)
        ensures
            r@ == self@,
    {
        match self {
            AssetInfo::NativeToken { denom } => AssetInfo::NativeToken { denom: copy_bytes(denom) },
            AssetInfo::Token { contract_addr } => AssetInfo::Token {
                contract_addr: copy_bytes(contract_addr),
            },
        }
    }
}

impl AssetInfo {
    /// The asset of kind `native` with the identity bytes `id`.
    pub fn from_key(native: bool, id: Vec<u8>) -> (r: Self)
        ensures
            r@ == (AssetInfoView { native, id: id@ }),
    {
        if native {
            AssetInfo::NativeToken { denom: id }
        } else {
            AssetInfo::Token { contract_addr: id }
        }
    }

    /// Whether the asset is a native denomination.
    pub fn is_native_token(&self) -> (r: bool)
        ensures
            r == self@.native,
    {
        match self {
            AssetInfo::NativeToken { .. } => true,
            AssetInfo::Token { .. } => false,
        }
    }

    /// The bytes under which the pool of this asset is kept.
    pub fn to_vec(&self) -> (r: Vec<u8>)
        ensures
            r@ == self@.id,
    {
        match self {
            AssetInfo::NativeToken { denom } => copy_bytes(denom),
            AssetInfo::Token { contract_addr } => copy_bytes(contract_addr),
        }
    }

    /// Whether two identities are the same: the same kind and the same bytes.
    pub fn equal(&self, other: &AssetInfo) -> (r: bool)
        ensures
            r <==> self@ == other@,
    {
        match (self, other) {
            (AssetInfo::NativeToken { denom: a }, AssetInfo::NativeToken { denom: b }) => bytes_eq(
                a,
                b,
            ),
            (
                AssetInfo::Token { contract_addr: a },
                AssetInfo::Token { contract_addr: b },
            ) => bytes_eq(a, b),
            _ => false,
        }
    }
}

/// An amount of an asset. In a weight table the amount is the asset's weight.
#[derive(Debug, PartialEq, Eq)]
pub struct Asset {
    pub info: AssetInfo,
    pub amount: u128,
}

/// The model of an amount of an asset.
pub struct AssetView {
    pub info: AssetInfoView,
    pub amount: nat,
}

impl View for Asset {
    type V = AssetView;

    open spec fn view(&self) -> AssetView {
        AssetView { info: self.info@, amount: self.amount as nat }
    }
}

impl Clone for Asset {
    fn clone(&self) -> (r: Self)
        ensures
            r@ == self@,
    {
        Asset { info: self.info.clone(), amount: self.amount }
    }
}

/// The models of a list of assets, in the list's order.
pub open spec fn assets_view(list: Seq<Asset>) -> Seq<AssetView> {
    list.map_values(|a: Asset| a@)
}

/// Every amount in the list is a 128-bit number.
pub open spec fn amounts_bounded(list: Seq<AssetView>) -> bool {
    forall|i: int| 0 <= i < list.len() ==> (#[trigger] list[i]).amount <= u128::MAX
}

/// A fresh copy of a list of assets.
pub fn copy_assets(list: &Vec<Asset>) -> (r: Vec<Asset>)
    ensures
        assets_view(r@) == assets_view(list@),
{
    let mut r: Vec<Asset> = Vec::new();
    let mut i: usize = 0;
    while i < list.len()
        invariant
            i <= list.len(),
            r@.len() == i,
            forall|j: int| 0 <= j < i ==> r@[j]@ == list@[j]@,
        decreases list.len() - i,
    {
        r.push(list[i].clone());
        i += 1;
    }
    r
}

/// The index of the first entry for `info`, or the length of the list if
/// there is none.
pub open spec fn asset_index(list: Seq<AssetView>, info: AssetInfoView) -> int
    decreases list.len(),
{
    if list.len() == 0 || list[0].info == info {
        0
    } else {
        1 + asset_index(list.drop_first(), info)
    }
}

/// The amount that the list holds of `info`: that of its first entry for it,
/// or zero.
pub open spec fn amount_of(list: Seq<AssetView>, info: AssetInfoView) -> nat {
    if asset_index(list, info) < list.len() {
        list[asset_index(list, info)].amount
    } else {
        0
    }
}

/// The list after `amount` of `info` is merged into it: added to the entry
/// for `info`, or appended as a new entry.
pub open spec fn merged(list: Seq<AssetView>, info: AssetInfoView, amount: nat) -> Seq<AssetView> {
    let i = asset_index(list, info);
    if i < list.len() {
        list.update(i, AssetView { info, amount: list[i].amount + amount })
    } else {
        list.push(AssetView { info, amount })
    }
}

/// The index is within the list or its length; no earlier entry is for
/// `info`, and the entry at the index is.
pub proof fn lemma_asset_index_bounds(list: Seq<AssetView>, info: AssetInfoView)
    ensures
        0 <= asset_index(list, info) <= list.len(),
        forall|j: int| 0 <= j < asset_index(list, info) ==> (#[trigger] list[j]).info != info,
        asset_index(list, info) < list.len() ==> list[asset_index(list, info)].info == info,
    decreases list.len(),
{
    if list.len() > 0 && list[0].info != info {
        let t = list.drop_first();
        lemma_asset_index_bounds(t, info);
        assert forall|j: int| 0 <= j < asset_index(list, info) implies (#[trigger] list[j]).info
            != info by {
            if j > 0 {
                assert(list[j] == t[j - 1]);
            }
        }
        if asset_index(list, info) < list.len() {
            assert(list[asset_index(list, info)] == t[asset_index(t, info)]);
        }
    }
}

/// An index with the two properties of `asset_index` is `asset_index`.
pub proof fn lemma_asset_index_unique(list: Seq<AssetView>, info: AssetInfoView, i: int)
    requires
        0 <= i <= list.len(),
        forall|j: int| 0 <= j < i ==> (#[trigger] list[j]).info != info,
        i < list.len() ==> list[i].info == info,
    ensures
        asset_index(list, info) == i,
    decreases list.len(),
{
    if i > 0 {
        let t = list.drop_first();
        assert forall|j: int| 0 <= j < i - 1 implies (#[trigger] t[j]).info != info by {
            assert(t[j] == list[j + 1]);
        }
        if i - 1 < t.len() {
            assert(t[i - 1] == list[i]);
        }
        lemma_asset_index_unique(t, info, i - 1);
    }
}

/// Adds `amount` to the entry of `reward_assets` for the asset of `rw`, or
/// appends an entry for it. Fails, and leaves the list as it was, when the sum
/// leaves the 128-bit range.
pub fn update_reward_assets_amount(reward_assets: &mut Vec<Asset>, rw: &Asset, amount: u128) -> (r:
    Result<(), StakingError>)
    ensures
        r is Ok <==> amount_of(assets_view(old(reward_assets)@), rw@.info) + amount <= u128::MAX,
        r is Ok ==> assets_view(final(reward_assets)@) == merged(
            assets_view(old(reward_assets)@),
            rw@.info,
            amount as nat,
        ),
        r is Err ==> r == Err::<(), StakingError>(StakingError::ArithmeticInvariantViolation)
            && assets_view(final(reward_assets)@) == assets_view(old(reward_assets)@),
{
    let ghost before = assets_view(reward_assets@);
    let mut i: usize = 0;
    while i < reward_assets.len()
        invariant
            i <= reward_assets.len(),
            reward_assets@ == old(reward_assets)@,
            before == assets_view(reward_assets@),
            forall|j: int| 0 <= j < i ==> (#[trigger] before[j]).info != rw@.info,
        decreases reward_assets.len() - i,
    {
        if reward_assets[i].info.equal(&rw.info) {
            proof {
                lemma_asset_index_unique(before, rw@.info, i as int);
            }
            let current = reward_assets[i].amount;
            match current.checked_add(amount) {
                Some(sum) => {
                    let entry = Asset { info: rw.info.clone(), amount: sum };
                    reward_assets.set(i, entry);
                    return Ok(());
                },
                None => {
                    return Err(StakingError::ArithmeticInvariantViolation);
                },
            }
        }
        i += 1;
    }
    proof {
        lemma_asset_index_unique(before, rw@.info, i as int);
    }
    reward_assets.push(Asset { info: rw.info.clone(), amount });
    Ok(())
}

/// The list `acc` after every entry of `list` is merged into it, in the
/// order of `list`. There is no result when an amount leaves the 128-bit range.
pub open spec fn merged_all(acc: Seq<AssetView>, list: Seq<AssetView>) -> Option<Seq<AssetView>>
    decreases list.len(),
{
    if list.len() == 0 {
        Some(acc)
    } else {
        match merged_all(acc, list.drop_last()) {
            None => None,
            Some(sum) => {
                let entry = list.last();
                if amount_of(sum, entry.info) + entry.amount > u128::MAX {
                    None
                } else {
                    Some(merged(sum, entry.info, entry.amount))
                }
            },
        }
    }
}

/// Once a prefix of the list cannot be merged, the list cannot.
pub proof fn lemma_merged_all_prefix_fails(acc: Seq<AssetView>, list: Seq<AssetView>, n: int)
    requires
        0 <= n <= list.len(),
        merged_all(acc, list.take(n)) is None,
    ensures
        merged_all(acc, list) is None,
    decreases list.len() - n,
{
    if n == list.len() {
        assert(list.take(n) =~= list);
    } else {
        assert(list.drop_last().take(n) =~= list.take(n));
        lemma_merged_all_prefix_fails(acc, list.drop_last(), n);
    }
}

/// Merges every entry of `list` into `acc`. Fails, and leaves `acc` as it
/// was, when an amount leaves the 128-bit range.
pub fn merge_assets(acc: &mut Vec<Asset>, list: &Vec<Asset>) -> (r: Result<(), StakingError>)
    ensures
        r is Ok <==> merged_all(assets_view(old(acc)@), assets_view(list@)) is Some,
        r is Ok ==> Some(assets_view(final(acc)@)) == merged_all(
            assets_view(old(acc)@),
            assets_view(list@),
        ),
        r is Err ==> r == Err::<(), StakingError>(StakingError::ArithmeticInvariantViolation)
            && assets_view(final(acc)@) == assets_view(old(acc)@),
{
    let ghost start = assets_view(acc@);
    let ghost entries = assets_view(list@);
    let mut sum = copy_assets(acc);
    let mut i: usize = 0;
    while i < list.len()
        invariant
            i <= list.len(),
            entries == assets_view(list@),
            *acc == *old(acc),
            start == assets_view(acc@),
            merged_all(start, entries.take(i as int)) == Some(assets_view(sum@)),
        decreases list.len() - i,
    {
        proof {
            assert(entries.take(i + 1).drop_last() =~= entries.take(i as int));
        }
        match update_reward_assets_amount(&mut sum, &list[i], list[i].amount) {
            Ok(()) => {},
            Err(e) => {
                proof {
                    lemma_merged_all_prefix_fails(start, entries, i + 1);
                }
                return Err(e);
            },
        }
        i += 1;
    }
    assert(entries.take(list.len() as int) =~= entries);
    *acc = sum;
    Ok(())
}

/// No two entries of the list are for the same asset.
pub open spec fn distinct_assets(list: Seq<AssetView>) -> bool {
    forall|i: int, j: int|
        0 <= i < j < list.len() ==> (#[trigger] list[i]).info != (#[trigger] list[j]).info
}

/// A list with one entry for each asset and amounts of 128 bits: what a
/// position keeps to be withdrawn is such a list.
pub open spec fn is_asset_map(list: Seq<AssetView>) -> bool {
    distinct_assets(list) && amounts_bounded(list)
}

/// Merging an amount that fits keeps the list one with one entry for each asset.
pub proof fn lemma_merged_keeps_map(list: Seq<AssetView>, info: AssetInfoView, amount: nat)
    requires
        is_asset_map(list),
        amount_of(list, info) + amount <= u128::MAX,
    ensures
        is_asset_map(merged(list, info, amount)),
{
    lemma_asset_index_bounds(list, info);
    let after = merged(list, info, amount);
    let at = asset_index(list, info);
    assert forall|i: int, j: int| 0 <= i < j < after.len() implies (#[trigger] after[i]).info != (
    #[trigger] after[j]).info by {
        if at < list.len() {
            // the entries keep their assets
            assert(after[i].info == list[i].info && after[j].info == list[j].info);
        } else if j < list.len() {
            assert(after[i] == list[i] && after[j] == list[j]);
        } else {
            // the new entry is for an asset that no entry was for
            assert(after[i] == list[i]);
        }
    }
    assert forall|i: int| 0 <= i < after.len() implies (#[trigger] after[i]).amount
        <= u128::MAX by {
        if i != at {
            assert(after[i] == list[i]);
        }
    }
}

/// Merged into nothing, a list with one entry for each asset is itself.
pub proof fn lemma_merged_all_of_map(list: Seq<AssetView>)
    requires
        is_asset_map(list),
    ensures
        merged_all(Seq::empty(), list) == Some(list),
    decreases list.len(),
{
    if list.len() > 0 {
        let front = list.drop_last();
        let entry = list.last();
        assert(is_asset_map(front)) by {
            assert forall|i: int, j: int| 0 <= i < j < front.len() implies (
            #[trigger] front[i]).info != (#[trigger] front[j]).info by {
                assert(front[i] == list[i] && front[j] == list[j]);
            }
            assert forall|i: int| 0 <= i < front.len() implies (#[trigger] front[i]).amount
                <= u128::MAX by {
                assert(front[i] == list[i]);
            }
        }
        lemma_merged_all_of_map(front);
        assert forall|j: int| 0 <= j < front.len() implies (#[trigger] front[j]).info
            != entry.info by {
            assert(front[j] == list[j] && entry == list[list.len() - 1]);
        }
        lemma_asset_index_unique(front, entry.info, front.len() as int);
        assert(merged(front, entry.info, entry.amount) =~= list);
    } else {
        assert(list =~= Seq::<AssetView>::empty());
    }
}

} // verus!
