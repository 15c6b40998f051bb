//! Records in the layout that was kept before rewards were split over several
//! assets, and their conversion to positions.

use crate::asset::AssetView;
use crate::bytes::copy_bytes;
use crate::pool::MigrationSnapshot;
use crate::position::{PositionView, StakerPosition};
use vstd::prelude::*;

verus! {

/// A pool in the old layout, which also kept short positions.
#[derive(Debug, PartialEq, Eq)]
pub struct LegacyPoolInfo {
    pub staking_token: Vec<u8>,
    pub pending_reward: u128,
    pub short_pending_reward: u128,
    pub total_bond_amount: u128,
    pub total_short_amount: u128,
    pub reward_index: u128,
    pub short_reward_index: u128,
    pub premium_rate: u128,
    pub short_reward_weight: u128,
    pub premium_updated_time: u64,
    pub migration_params: Option<MigrationSnapshot>,
}

/// A position in the old layout: it has no rewards split over assets.
#[derive(Clone, Copy, Debug, PartialEq, Eq, Structural)]
pub struct LegacyRewardInfo {
    pub index: u128,
    pub bond_amount: u128,
    pub pending_reward: u128,
    pub native_token: bool,
}

impl LegacyRewardInfo {
    /// The position that the record stands for: the same amounts, and
    /// nothing waiting to be withdrawn.
    pub open spec fn upgraded(self) -> PositionView {
        PositionView {
            native_token: self.native_token,
            index: self.index as nat,
            bond_amount: self.bond_amount as nat,
            pending_reward: self.pending_reward as nat,
            pending_withdraw: Seq::empty(),
        }
    }

    /// Converts the record to a position.
    pub fn upgrade(&self) -> (r: StakerPosition)
        ensures
            r@ == self.upgraded(),
    {
        let r = StakerPosition {
            native_token: self.native_token,
            index: self.index,
            bond_amount: self.bond_amount,
            pending_reward: self.pending_reward,
            pending_withdraw: Vec::new(),
        };
        assert(r@.pending_withdraw =~= Seq::<AssetView>::empty());
        r
    }
}

/// Converts the records of a staker, each kept under the key of its asset,
/// to positions under the same keys and in the same order.
pub fn migrate_rewards_store(reward_pairs: &Vec<(Vec<u8>, LegacyRewardInfo)>) -> (r: Vec<
    (Vec<u8>, StakerPosition),
>)
    ensures
        r@.len() == reward_pairs@.len(),
        forall|i: int|
            0 <= i < r@.len() ==> (#[trigger] r@[i]).0@ == reward_pairs@[i].0@ && r@[i].1@
                == reward_pairs@[i].1.upgraded(),
{
    let mut r: Vec<(Vec<u8>, StakerPosition)> = Vec::new();
    let mut i: usize = 0;
    while i < reward_pairs.len()
        invariant
            i <= reward_pairs.len(),
            r@.len() == i,
            forall|j: int|
                0 <= j < i ==> (#[trigger] r@[j]).0@ == reward_pairs@[j].0@ && r@[j].1@
                    == reward_pairs@[j].1.upgraded(),
        decreases reward_pairs.len() - i,
    {
        let pair = &reward_pairs[i];
        r.push((copy_bytes(&pair.0), pair.1.upgrade()));
        i += 1;
    }
    r
}

} // verus!
