//! A pool's account: the bonded total and the cumulative reward index.

use crate::bytes::copy_bytes;
use crate::error::StakingError;
use crate::fixed_point::{checked_from_ratio, ratio_index};
use vstd::prelude::*;

verus! {

/// What a pool keeps of the moment at which its staking token was replaced.
#[derive(Debug, PartialEq, Eq)]
pub struct MigrationSnapshot {
    /// The reward index at that moment. Stakers that were bonded then accrue
    /// up to it and no further.
    pub index_snapshot: u128,
    /// The staking token that the pool had until then.
    pub deprecated_staking_token: Vec<u8>,
}

/// The model of a migration snapshot.
pub struct SnapshotView {
    pub index_snapshot: nat,
    pub deprecated_staking_token: Seq<u8>,
}

impl View for MigrationSnapshot {
    type V = SnapshotView;

    open spec fn view(&self) -> SnapshotView {
        SnapshotView {
            index_snapshot: self.index_snapshot as nat,
            deprecated_staking_token: self.deprecated_staking_token@,
        }
    }
}

/// The aggregate staking state of one asset.
#[derive(Debug, PartialEq, Eq)]
pub struct PoolAccount {
    /// The token that stakers bond.
    pub staking_token: Vec<u8>,
    /// The sum of the bonded amounts that accrue against `reward_index`.
    pub total_bond_amount: u128,
    /// The cumulative reward per bonded unit.
    pub reward_index: u128,
    /// Reward that came in while nothing was bonded.
    pub pending_reward: u128,
    /// Set once the staking token has been replaced.
    pub migration: Option<MigrationSnapshot>,
}

/// The model of a pool account.
pub struct PoolAccountView {
    pub staking_token: Seq<u8>,
    pub total_bond_amount: nat,
    pub reward_index: nat,
    pub pending_reward: nat,
    pub migration: Option<SnapshotView>,
}

impl View for PoolAccount {
    type V = PoolAccountView;

    open spec fn view(&self) -> PoolAccountView {
        PoolAccountView {
            staking_token: self.staking_token@,
            total_bond_amount: self.total_bond_amount as nat,
            reward_index: self.reward_index as nat,
            pending_reward: self.pending_reward as nat,
            migration: match self.migration {
                Some(snapshot) => Some(snapshot@),
                None => None,
            },
        }
    }
}

impl Clone for PoolAccount {
    fn clone(&self) -> (r: Self)
        ensures
            r@ == self@,
    {
        PoolAccount {
            staking_token: copy_bytes(&self.staking_token),
            total_bond_amount: self.total_bond_amount,
            reward_index: self.reward_index,
            pending_reward: self.pending_reward,
            migration: match &self.migration {
                Some(snapshot) => Some(
                    MigrationSnapshot {
                        index_snapshot: snapshot.index_snapshot,
                        deprecated_staking_token: copy_bytes(&snapshot.deprecated_staking_token),
                    },
                ),
                None => None,
            },
        }
    }
}

impl PoolAccountView {
    /// The account of a pool that was just registered.
    pub open spec fn fresh(staking_token: Seq<u8>) -> PoolAccountView {
        PoolAccountView {
            staking_token,
            total_bond_amount: 0,
            reward_index: 0,
            pending_reward: 0,
            migration: None,
        }
    }

    /// The account after a reward of `amount` came in. While nothing is
    /// bonded the reward is carried in `pending_reward`. Otherwise the reward,
    /// with what was carried, is divided by the bonded total, rounded down to
    /// the index's precision, and added to the index: what the rounding leaves
    /// over is gone. Fails when an amount or the index leaves the 128-bit range.
    pub open spec fn deposited(self, amount: nat) -> Result<PoolAccountView, StakingError> {
        let total = self.pending_reward + amount;
        let increment = ratio_index(total, self.total_bond_amount);
        if total > u128::MAX {
            Err(StakingError::ArithmeticInvariantViolation)
        } else if self.total_bond_amount == 0 {
            Ok(PoolAccountView { pending_reward: total, ..self })
        } else if increment > u128::MAX || self.reward_index + increment > u128::MAX {
            Err(StakingError::ArithmeticInvariantViolation)
        } else {
            Ok(
                PoolAccountView {
                    reward_index: self.reward_index + increment,
                    pending_reward: 0,
                    ..self
                },
            )
        }
    }

    /// The account after its staking token is replaced by `new_staking_token`:
    /// the index and the old token are kept in the snapshot.
    pub open spec fn migrated_to(self, new_staking_token: Seq<u8>) -> PoolAccountView {
        PoolAccountView {
            staking_token: new_staking_token,
            migration: Some(
                SnapshotView {
                    index_snapshot: self.reward_index,
                    deprecated_staking_token: self.staking_token,
                },
            ),
            ..self
        }
    }
}

impl PoolAccount {
    /// The account of a pool that was just registered: nothing bonded, index zero.
    pub fn new(staking_token: Vec<u8>) -> (r: Self)
        ensures
            r@ == PoolAccountView::fresh(staking_token@),
    {
        PoolAccount {
            staking_token,
            total_bond_amount: 0,
            reward_index: 0,
            pending_reward: 0,
            migration: None,
        }
    }

    /// Takes a reward of `amount` into the account.
    pub fn deposit(&mut self, amount: u128) -> (r: Result<(), StakingError>)
        ensures
            match r {
                Ok(()) => old(self)@.deposited(amount as nat) == Ok::<PoolAccountView, StakingError>(
                    final(self)@,
                ),
                Err(e) => old(self)@.deposited(amount as nat) == Err::<PoolAccountView, StakingError>(
                    e,
                ) && final(self)@ == old(self)@,
            },
            r is Ok ==> final(self).reward_index >= old(self).reward_index,
    {
        let total = match self.pending_reward.checked_add(amount) {
            Some(total) => total,
            None => {
                return Err(StakingError::ArithmeticInvariantViolation);
            },
        };
        if self.total_bond_amount == 0 {
            self.pending_reward = total;
            return Ok(());
        }
        let increment = match checked_from_ratio(total, self.total_bond_amount) {
            Some(increment) => increment,
            None => {
                return Err(StakingError::ArithmeticInvariantViolation);
            },
        };
        match self.reward_index.checked_add(increment) {
            Some(index) => {
                self.reward_index = index;
                self.pending_reward = 0;
                Ok(())
            },
            None => Err(StakingError::ArithmeticInvariantViolation),
        }
    }

    /// Replaces the staking token by `new_staking_token` and snapshots the
    /// index. A pool is migrated once: the account must not hold a snapshot yet.
    pub fn migrate(&mut self, new_staking_token: Vec<u8>)
        requires
            old(self).migration is None,
        ensures
            final(self)@ == old(self)@.migrated_to(new_staking_token@),
    {
        let mut token = new_staking_token;
        std::mem::swap(&mut self.staking_token, &mut token);
        self.migration = Some(
            MigrationSnapshot { index_snapshot: self.reward_index, deprecated_staking_token: token },
        );
    }
}

} // verus!
