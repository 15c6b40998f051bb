//! A pool with its stakers: bonding, unbonding and the settlement of one
//! staker's rewards.

use crate::asset::{assets_view, Asset, AssetView};
use crate::bytes::copy_bytes;
use crate::error::StakingError;
use crate::pool::{PoolAccount, PoolAccountView};
use crate::position::{before_share_change, PositionView, StakerPosition};
use crate::sorted_map::{contains_key, del, keys_sorted, lookup, put, SortedMap};
use vstd::prelude::*;

verus! {

/// A pool: its account, the weight table that splits its rewards over the
/// reward assets, the positions of its stakers, and the stakers that are
/// flagged as migrated. The stakers of the pool are those with a position.
#[derive(Debug, PartialEq, Eq)]
pub struct Pool {
    pub account: PoolAccount,
    pub weights: Vec<Asset>,
    pub positions: SortedMap<StakerPosition>,
    pub migrated: SortedMap<()>,
}

/// The model of a pool. Positions and flags are in ascending order of the
/// staker's identity.
pub struct PoolView {
    pub account: PoolAccountView,
    pub weights: Seq<AssetView>,
    pub positions: Seq<(Seq<u8>, PositionView)>,
    pub migrated: Seq<(Seq<u8>, ())>,
}

impl View for Pool {
    type V = PoolView;

    open spec fn view(&self) -> PoolView {
        PoolView {
            account: self.account@,
            weights: assets_view(self.weights@),
            positions: self.positions@,
            migrated: self.migrated@,
        }
    }
}

/// What an unbond gives: the pool after it, the token in which the bonded
/// amount goes back to the staker, and the reward assets that are paid out
/// because the position was closed.
pub struct Unbonded {
    pub pool: PoolView,
    pub staking_token: Seq<u8>,
    pub reward_assets: Seq<AssetView>,
}

impl PoolView {
    /// Positions and flags are in strictly ascending order of the staker.
    pub open spec fn wf(self) -> bool {
        keys_sorted(self.positions) && keys_sorted(self.migrated)
    }

    /// Whether the staker is flagged as migrated.
    pub open spec fn is_migrated(self, staker: Seq<u8>) -> bool {
        contains_key(self.migrated, staker)
    }

    /// Whether the staker's rewards stop at the snapshot: the staking token
    /// was replaced and the staker is not flagged as migrated.
    pub open spec fn uses_snapshot(self, staker: Seq<u8>) -> bool {
        self.account.migration is Some && !self.is_migrated(staker)
    }

    /// The index against which the staker's position is settled.
    pub open spec fn effective_index(self, staker: Seq<u8>) -> nat {
        if self.uses_snapshot(staker) {
            self.account.migration->0.index_snapshot
        } else {
            self.account.reward_index
        }
    }

    /// The pool with the staker flagged as migrated.
    pub open spec fn flagged(self, staker: Seq<u8>) -> Seq<(Seq<u8>, ())> {
        put(self.migrated, staker, ())
    }

    /// The pool after `staker` bonds `amount`. A staker without a position
    /// starts from a fresh one. Where the staker's rewards stop at the
    /// snapshot, a position that still holds the old token is locked, and one
    /// that holds nothing is flagged as migrated. The position is settled
    /// against the live index before it and the pool's total grow by `amount`.
    /// A position that has nothing bonded and nothing owed even then is not kept.
    pub open spec fn bonded(self, staker: Seq<u8>, native_token: bool, amount: nat) -> Result<
        PoolView,
        StakingError,
    > {
        let position = match lookup(self.positions, staker) {
            Some(position) => position,
            None => PositionView::fresh(native_token),
        };
        if self.uses_snapshot(staker) && position.bond_amount > 0 {
            Err(StakingError::PositionLocked)
        } else {
            match position.settled(self.account.reward_index) {
                Err(e) => Err(e),
                Ok(settled) => if self.account.total_bond_amount + amount > u128::MAX
                    || settled.bond_amount + amount > u128::MAX {
                    Err(StakingError::ArithmeticInvariantViolation)
                } else {
                    Ok(
                        PoolView {
                            account: PoolAccountView {
                                total_bond_amount: self.account.total_bond_amount + amount,
                                ..self.account
                            },
                            migrated: if self.uses_snapshot(staker) {
                                self.flagged(staker)
                            } else {
                                self.migrated
                            },
                            ..self.with_position(
                                staker,
                                PositionView { bond_amount: settled.bond_amount + amount, ..settled },
                            )
                        },
                    )
                },
            }
        }
    }

    /// The outcome of `staker` unbonding `amount`. Where the staker's rewards
    /// stop at the snapshot, the position is settled against the snapshot,
    /// the old token goes back, the pool's total stays as it is, and a
    /// position that reaches zero is flagged as migrated. Otherwise the
    /// position is settled against the live index, the current token goes
    /// back and the pool's total shrinks by `amount`. A position with nothing
    /// bonded and no pending reward is closed, and what it holds in
    /// `pending_withdraw` is paid out.
    pub open spec fn unbonded(self, staker: Seq<u8>, amount: nat) -> Result<Unbonded, StakingError> {
        match lookup(self.positions, staker) {
            None => Err(StakingError::NotFound),
            Some(position) => {
                let legacy = self.uses_snapshot(staker);
                if amount > position.bond_amount {
                    Err(StakingError::InsufficientBondAmount)
                } else {
                    match position.settled(self.effective_index(staker)) {
                        Err(e) => Err(e),
                        Ok(settled) => if !legacy && self.account.total_bond_amount < amount {
                            Err(StakingError::ArithmeticInvariantViolation)
                        } else {
                            let left = (settled.bond_amount - amount) as nat;
                            let closes = left == 0 && settled.pending_reward == 0;
                            Ok(
                                Unbonded {
                                    pool: PoolView {
                                        account: PoolAccountView {
                                            total_bond_amount: if legacy {
                                                self.account.total_bond_amount
                                            } else {
                                                (self.account.total_bond_amount - amount) as nat
                                            },
                                            ..self.account
                                        },
                                        positions: if closes {
                                            del(self.positions, staker)
                                        } else {
                                            put(
                                                self.positions,
                                                staker,
                                                PositionView { bond_amount: left, ..settled },
                                            )
                                        },
                                        migrated: if legacy && left == 0 {
                                            self.flagged(staker)
                                        } else {
                                            self.migrated
                                        },
                                        ..self
                                    },
                                    staking_token: if legacy {
                                        self.account.migration->0.deprecated_staking_token
                                    } else {
                                        self.account.staking_token
                                    },
                                    reward_assets: if closes {
                                        settled.pending_withdraw
                                    } else {
                                        Seq::empty()
                                    },
                                },
                            )
                        },
                    }
                }
            },
        }
    }

    /// The pool after the rewards of `staker` are settled and split, and the
    /// payments that this gives. A staker without a position gets nothing.
    /// With `do_withdraw` the position's `pending_withdraw` is paid out. A
    /// position that is left with nothing bonded and nothing owed is closed.
    pub open spec fn processed(self, staker: Seq<u8>, do_withdraw: bool) -> Result<
        (PoolView, Seq<AssetView>),
        StakingError,
    > {
        match lookup(self.positions, staker) {
            None => Ok((self, Seq::empty())),
            Some(position) => match position.processed(
                self.effective_index(staker),
                self.weights,
                do_withdraw,
            ) {
                Err(e) => Err(e),
                Ok((after, payments)) => Ok((self.with_position(staker, after), payments)),
            },
        }
    }

    /// The pool with `position` as the position of `staker`; a position with
    /// nothing bonded and nothing owed is not kept.
    pub open spec fn with_position(self, staker: Seq<u8>, position: PositionView) -> PoolView {
        PoolView {
            positions: if position.is_closed() {
                del(self.positions, staker)
            } else {
                put(self.positions, staker, position)
            },
            ..self
        }
    }
}

impl Pool {
    /// A pool that was just registered: no stakers, no weights, index zero.
    pub fn new(staking_token: Vec<u8>) -> (r: Self)
        ensures
            r@.account == PoolAccountView::fresh(staking_token@),
            r@.weights == Seq::<AssetView>::empty(),
            r@.positions == Seq::<(Seq<u8>, PositionView)>::empty(),
            r@.migrated == Seq::<(Seq<u8>, ())>::empty(),
            r@.wf(),
    {
        let r = Pool {
            account: PoolAccount::new(staking_token),
            weights: Vec::new(),
            positions: SortedMap::new(),
            migrated: SortedMap::new(),
        };
        r
    }

    /// Whether positions and flags are in strictly ascending order.
    pub fn is_well_formed(&self) -> (r: bool)
        ensures
            r == self@.wf(),
    {
        self.positions.is_sorted() && self.migrated.is_sorted()
    }

    /// Replaces the weight table.
    pub fn set_weights(&mut self, weights: Vec<Asset>)
        ensures
            final(self)@ == (PoolView { weights: assets_view(weights@), ..old(self)@ }),
    {
        self.weights = weights;
    }

    /// Whether the staker's rewards stop at the snapshot.
    pub fn uses_snapshot(&self, staker: &Vec<u8>) -> (r: bool)
        ensures
            r == self@.uses_snapshot(staker@),
    {
        self.account.migration.is_some() && !self.migrated.contains(staker)
    }

    /// The index against which the staker's position is settled.
    pub fn effective_index(&self, staker: &Vec<u8>) -> (r: u128)
        ensures
            r == self@.effective_index(staker@),
    {
        let flagged = self.migrated.contains(staker);
        match &self.account.migration {
            Some(snapshot) => if flagged {
                self.account.reward_index
            } else {
                snapshot.index_snapshot
            },
            None => self.account.reward_index,
        }
    }

    /// Bonds `amount` for `staker`.
    pub fn increase_bond_amount(&mut self, staker: &Vec<u8>, native_token: bool, amount: u128) -> (r:
        Result<(), StakingError>)
        requires
            old(self)@.wf(),
        ensures
            final(self)@.wf(),
            match r {
                Ok(()) => old(self)@.bonded(staker@, native_token, amount as nat) == Ok::<
                    PoolView,
                    StakingError,
                >(final(self)@),
                Err(e) => old(self)@.bonded(staker@, native_token, amount as nat) == Err::<
                    PoolView,
                    StakingError,
                >(e) && final(self)@ == old(self)@,
            },
    {
        let mut position = match self.positions.get(staker) {
            Some(position) => position.clone(),
            None => StakerPosition::new(native_token),
        };
        let legacy = self.uses_snapshot(staker);
        if legacy && position.bond_amount > 0 {
            return Err(StakingError::PositionLocked);
        }
        match before_share_change(self.account.reward_index, &mut position) {
            Ok(()) => {},
            Err(e) => {
                return Err(e);
            },
        }
        let total = match self.account.total_bond_amount.checked_add(amount) {
            Some(total) => total,
            None => {
                return Err(StakingError::ArithmeticInvariantViolation);
            },
        };
        let bond = match position.bond_amount.checked_add(amount) {
            Some(bond) => bond,
            None => {
                return Err(StakingError::ArithmeticInvariantViolation);
            },
        };
        position.bond_amount = bond;
        self.account.total_bond_amount = total;
        if legacy {
            self.migrated.insert(copy_bytes(staker), ());
        }
        self.store_position(staker, position);
        Ok(())
    }

    /// Unbonds `amount` for `staker`. Gives the token in which the amount
    /// goes back, and the reward assets to pay out if the position was closed.
    pub fn decrease_bond_amount(&mut self, staker: &Vec<u8>, amount: u128) -> (r: Result<
        (Vec<u8>, Vec<Asset>),
        StakingError,
    >)
        requires
            old(self)@.wf(),
        ensures
            final(self)@.wf(),
            match r {
                Ok((staking_token, reward_assets)) => old(self)@.unbonded(staker@, amount as nat)
                    == Ok::<Unbonded, StakingError>(
                    Unbonded {
                        pool: final(self)@,
                        staking_token: staking_token@,
                        reward_assets: assets_view(reward_assets@),
                    },
                ),
                Err(e) => old(self)@.unbonded(staker@, amount as nat) == Err::<
                    Unbonded,
                    StakingError,
                >(e) && final(self)@ == old(self)@,
            },
    {
        let mut position = match self.positions.get(staker) {
            Some(position) => position.clone(),
            None => {
                return Err(StakingError::NotFound);
            },
        };
        if position.bond_amount < amount {
            return Err(StakingError::InsufficientBondAmount);
        }
        let legacy = self.uses_snapshot(staker);
        let index = self.effective_index(staker);
        match before_share_change(index, &mut position) {
            Ok(()) => {},
            Err(e) => {
                return Err(e);
            },
        }
        let mut total = self.account.total_bond_amount;
        if !legacy {
            total = match total.checked_sub(amount) {
                Some(total) => total,
                None => {
                    return Err(StakingError::ArithmeticInvariantViolation);
                },
            };
        }
        let staking_token = match &self.account.migration {
            Some(snapshot) => if legacy {
                copy_bytes(&snapshot.deprecated_staking_token)
            } else {
                copy_bytes(&self.account.staking_token)
            },
            None => copy_bytes(&self.account.staking_token),
        };
        position.bond_amount = position.bond_amount - amount;
        self.account.total_bond_amount = total;
        if legacy && position.bond_amount == 0 {
            self.migrated.insert(copy_bytes(staker), ());
        }
        if position.pending_reward == 0 && position.bond_amount == 0 {
            let _ = self.positions.remove(staker);
            Ok((staking_token, position.pending_withdraw))
        } else {
            self.positions.insert(copy_bytes(staker), position);
            let reward_assets: Vec<Asset> = Vec::new();
            assert(assets_view(reward_assets@) =~= Seq::<AssetView>::empty());
            Ok((staking_token, reward_assets))
        }
    }

    /// The position of `staker` after its rewards are settled and split, with
    /// what is to pay: nothing where the staker has no position. The pool
    /// itself stays as it is.
    pub fn settle_position(&self, staker: &Vec<u8>, do_withdraw: bool) -> (r: Result<
        Option<(StakerPosition, Vec<Asset>)>,
        StakingError,
    >)
        ensures
            match lookup(self@.positions, staker@) {
                None => r == Ok::<Option<(StakerPosition, Vec<Asset>)>, StakingError>(None),
                Some(position) => match position.processed(
                    self@.effective_index(staker@),
                    self@.weights,
                    do_withdraw,
                ) {
                    Err(e) => r == Err::<Option<(StakerPosition, Vec<Asset>)>, StakingError>(e),
                    Ok((after, payments)) => match r {
                        Ok(Some((settled, paid))) => settled@ == after && assets_view(paid@)
                            == payments,
                        _ => false,
                    },
                },
            },
    {
        let mut position = match self.positions.get(staker) {
            Some(position) => position.clone(),
            None => {
                return Ok(None);
            },
        };
        let index = self.effective_index(staker);
        match position.process(index, &self.weights, do_withdraw) {
            Ok(payments) => Ok(Some((position, payments))),
            Err(e) => Err(e),
        }
    }

    /// Keeps `position` as the position of `staker`, or closes the staker's
    /// position where `position` has nothing bonded and nothing owed.
    pub fn store_position(&mut self, staker: &Vec<u8>, position: StakerPosition)
        requires
            old(self)@.wf(),
        ensures
            final(self)@.wf(),
            final(self)@ == old(self)@.with_position(staker@, position@),
    {
        if position.is_closed() {
            let _ = self.positions.remove(staker);
        } else {
            self.positions.insert(copy_bytes(staker), position);
        }
    }

    /// Settles and splits the rewards of `staker`, and with `do_withdraw`
    /// pays out what the position holds in `pending_withdraw`.
    pub fn process_reward_assets(&mut self, staker: &Vec<u8>, do_withdraw: bool) -> (r: Result<
        Vec<Asset>,
        StakingError,
    >)
        requires
            old(self)@.wf(),
        ensures
            final(self)@.wf(),
            match r {
                Ok(payments) => old(self)@.processed(staker@, do_withdraw) == Ok::<
                    (PoolView, Seq<AssetView>),
                    StakingError,
                >((final(self)@, assets_view(payments@))),
                Err(e) => old(self)@.processed(staker@, do_withdraw) == Err::<
                    (PoolView, Seq<AssetView>),
                    StakingError,
                >(e) && final(self)@ == old(self)@,
            },
    {
        match self.settle_position(staker, do_withdraw) {
            Ok(Some((position, payments))) => {
                self.store_position(staker, position);
                Ok(payments)
            },
            Ok(None) => {
                let payments: Vec<Asset> = Vec::new();
                assert(assets_view(payments@) =~= Seq::<AssetView>::empty());
                Ok(payments)
            },
            Err(e) => Err(e),
        }
    }
}

} // verus!
