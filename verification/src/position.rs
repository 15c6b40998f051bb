//! A staker's position in one pool, and the settlement of its rewards.

use crate::asset::{
    amount_of, assets_view, copy_assets, is_asset_map, lemma_merged_keeps_map, merged,
    update_reward_assets_amount, Asset, AssetView,
};
use crate::error::StakingError;
use crate::fixed_point::{
    checked_mul_floor, checked_multiply_ratio, lemma_mul_floor_monotonic, lemma_mul_ratio_bounded,
    mul_floor, mul_ratio,
};
use vstd::prelude::*;

verus! {

/// What a staker holds in a pool.
#[derive(Debug, PartialEq, Eq)]
pub struct StakerPosition {
    /// Whether the pool's asset is a native denomination.
    pub native_token: bool,
    /// The reward index against which the position was last settled.
    pub index: u128,
    /// The bonded amount of the staking token.
    pub bond_amount: u128,
    /// Reward that is settled but not yet split over the reward assets.
    pub pending_reward: u128,
    /// Reward split over the reward assets and not yet paid out, one entry for
    /// each asset.
    pub pending_withdraw: Vec<Asset>,
}

/// The model of a position.
pub struct PositionView {
    pub native_token: bool,
    pub index: nat,
    pub bond_amount: nat,
    pub pending_reward: nat,
    pub pending_withdraw: Seq<AssetView>,
}

impl View for StakerPosition {
    type V = PositionView;

    open spec fn view(&self) -> PositionView {
        PositionView {
            native_token: self.native_token,
            index: self.index as nat,
            bond_amount: self.bond_amount as nat,
            pending_reward: self.pending_reward as nat,
            pending_withdraw: assets_view(self.pending_withdraw@),
        }
    }
}

impl Clone for StakerPosition {
    fn clone(&self) -> (r: Self)
        ensures
            r@ == self@,
    {
        StakerPosition {
            native_token: self.native_token,
            index: self.index,
            bond_amount: self.bond_amount,
            pending_reward: self.pending_reward,
            pending_withdraw: copy_assets(&self.pending_withdraw),
        }
    }
}

impl PositionView {
    /// The position that a staker has before the first bond.
    pub open spec fn fresh(native_token: bool) -> PositionView {
        PositionView {
            native_token,
            index: 0,
            bond_amount: 0,
            pending_reward: 0,
            pending_withdraw: Seq::empty(),
        }
    }

    /// Nothing is bonded and nothing is owed: such a position is not kept.
    pub open spec fn is_closed(self) -> bool {
        self.bond_amount == 0 && self.pending_reward == 0 && self.pending_withdraw.len() == 0
    }

    /// The reward that bonding from the position's own index up to `index`
    /// has earned: the difference of the two rounded-down products.
    pub open spec fn accrued(self, index: nat) -> int {
        mul_floor(self.bond_amount, index) - mul_floor(self.bond_amount, self.index)
    }

    /// The position after it is settled against `index`: the accrued reward
    /// moves to `pending_reward` and the position's index becomes `index`.
    /// Settlement fails when `index` lies below the position's index, or when
    /// a product or the new pending reward leaves the 128-bit range.
    pub open spec fn settled(self, index: nat) -> Result<PositionView, StakingError> {
        if index < self.index {
            Err(StakingError::ArithmeticInvariantViolation)
        } else if mul_floor(self.bond_amount, index) > u128::MAX {
            Err(StakingError::ArithmeticInvariantViolation)
        } else if self.pending_reward + self.accrued(index) > u128::MAX {
            Err(StakingError::ArithmeticInvariantViolation)
        } else {
            Ok(
                PositionView {
                    index,
                    pending_reward: (self.pending_reward + self.accrued(index)) as nat,
                    ..self
                },
            )
        }
    }

    /// The position after its pending reward is split over the weight table
    /// `weights`. Nothing changes when no reward is pending or when the
    /// weights add up to zero. Otherwise each asset of non-zero weight gets
    /// `pending_reward * weight / total weight`, rounded down, merged into
    /// `pending_withdraw`, and the pending reward becomes zero: what the
    /// rounding leaves over is gone.
    pub open spec fn converted(self, weights: Seq<AssetView>) -> Result<PositionView, StakingError> {
        if self.pending_reward == 0 {
            Ok(self)
        } else if total_weight(weights) > u128::MAX {
            Err(StakingError::ArithmeticInvariantViolation)
        } else if total_weight(weights) == 0 {
            Ok(self)
        } else {
            match distributed(
                self.pending_withdraw,
                weights,
                self.pending_reward,
                total_weight(weights),
            ) {
                None => Err(StakingError::ArithmeticInvariantViolation),
                Some(list) => Ok(PositionView { pending_reward: 0, pending_withdraw: list, ..self }),
            }
        }
    }

    /// Settlement against `index`, then the split over `weights`; with
    /// `do_withdraw` every entry of `pending_withdraw` moves to the list of
    /// payments. Gives the new position and the payments.
    pub open spec fn processed(self, index: nat, weights: Seq<AssetView>, do_withdraw: bool)
        -> Result<(PositionView, Seq<AssetView>), StakingError> {
        match self.settled(index) {
            Err(e) => Err(e),
            Ok(settled) => match settled.converted(weights) {
                Err(e) => Err(e),
                Ok(converted) => if do_withdraw {
                    Ok(
                        (
                            PositionView { pending_withdraw: Seq::empty(), ..converted },
                            converted.pending_withdraw,
                        ),
                    )
                } else {
                    Ok((converted, Seq::empty()))
                },
            },
        }
    }
}

/// The sum of the weights of a table.
pub open spec fn total_weight(weights: Seq<AssetView>) -> nat
    decreases weights.len(),
{
    if weights.len() == 0 {
        0
    } else {
        total_weight(weights.drop_last()) + weights.last().amount
    }
}

/// The list `list` after the shares of `pending` are merged into it, one for
/// each entry of `weights` with a non-zero weight, in the table's order. The
/// share of an entry is `pending * weight / total`, rounded down. There is no
/// result when an amount of the list leaves the 128-bit range.
pub open spec fn distributed(
    list: Seq<AssetView>,
    weights: Seq<AssetView>,
    pending: nat,
    total: nat,
) -> Option<Seq<AssetView>>
    decreases weights.len(),
{
    if weights.len() == 0 {
        Some(list)
    } else {
        match distributed(list, weights.drop_last(), pending, total) {
            None => None,
            Some(acc) => {
                let w = weights.last();
                let share = mul_ratio(pending, w.amount, total);
                if w.amount == 0 {
                    Some(acc)
                } else if amount_of(acc, w.info) + share > u128::MAX {
                    None
                } else {
                    Some(merged(acc, w.info, share))
                }
            },
        }
    }
}

/// The weights of a prefix of a table add up to no more than those of the table.
pub proof fn lemma_total_weight_prefix(weights: Seq<AssetView>, n: int)
    requires
        0 <= n <= weights.len(),
    ensures
        total_weight(weights.take(n)) <= total_weight(weights),
    decreases weights.len() - n,
{
    if n == weights.len() {
        assert(weights.take(n) =~= weights);
    } else {
        lemma_total_weight_prefix(weights.drop_last(), n);
        assert(weights.drop_last().take(n) =~= weights.take(n));
    }
}

/// No weight of a table exceeds the table's sum.
pub proof fn lemma_weight_within_total(weights: Seq<AssetView>, i: int)
    requires
        0 <= i < weights.len(),
    ensures
        weights[i].amount <= total_weight(weights),
{
    lemma_total_weight_prefix(weights, i + 1);
}

/// Once a prefix of the table has no result, the table has none.
pub proof fn lemma_distributed_prefix_fails(
    list: Seq<AssetView>,
    weights: Seq<AssetView>,
    pending: nat,
    total: nat,
    n: int,
)
    requires
        0 <= n <= weights.len(),
        distributed(list, weights.take(n), pending, total) is None,
    ensures
        distributed(list, weights, pending, total) is None,
    decreases weights.len() - n,
{
    if n == weights.len() {
        assert(weights.take(n) =~= weights);
    } else {
        assert(weights.drop_last().take(n) =~= weights.take(n));
        lemma_distributed_prefix_fails(list, weights.drop_last(), pending, total, n);
    }
}

/// Shares that can be merged leave a list with one entry for each asset as
/// such a list.
pub proof fn lemma_distributed_keeps_map(
    list: Seq<AssetView>,
    weights: Seq<AssetView>,
    pending: nat,
    total: nat,
)
    requires
        is_asset_map(list),
        distributed(list, weights, pending, total) is Some,
    ensures
        is_asset_map(distributed(list, weights, pending, total)->0),
    decreases weights.len(),
{
    if weights.len() > 0 {
        lemma_distributed_keeps_map(list, weights.drop_last(), pending, total);
        if weights.last().amount != 0 {
            lemma_merged_keeps_map(
                distributed(list, weights.drop_last(), pending, total)->0,
                weights.last().info,
                mul_ratio(pending, weights.last().amount, total),
            );
        }
    }
}

/// The sum of the weights of a table, or nothing when it leaves the 128-bit range.
pub fn sum_weights(weights: &Vec<Asset>) -> (r: Option<u128>)
    ensures
        r is Some <==> total_weight(assets_view(weights@)) <= u128::MAX,
        r is Some ==> r->0 == total_weight(assets_view(weights@)),
{
    let ghost table = assets_view(weights@);
    let mut sum: u128 = 0;
    let mut i: usize = 0;
    while i < weights.len()
        invariant
            i <= weights.len(),
            table == assets_view(weights@),
            sum == total_weight(table.take(i as int)),
        decreases weights.len() - i,
    {
        proof {
            assert(table.take(i + 1).drop_last() =~= table.take(i as int));
            lemma_total_weight_prefix(table, i + 1);
        }
        match sum.checked_add(weights[i].amount) {
            Some(next) => {
                sum = next;
            },
            None => {
                return None;
            },
        }
        i += 1;
    }
    assert(table.take(weights.len() as int) =~= table);
    Some(sum)
}

impl StakerPosition {
    /// The position that a staker has before the first bond.
    pub fn new(native_token: bool) -> (r: Self)
        ensures
            r@ == PositionView::fresh(native_token),
    {
        let r = StakerPosition {
            native_token,
            index: 0,
            bond_amount: 0,
            pending_reward: 0,
            pending_withdraw: Vec::new(),
        };
        assert(r@.pending_withdraw =~= Seq::<AssetView>::empty());
        r
    }

    /// Whether nothing is bonded and nothing is owed.
    pub fn is_closed(&self) -> (r: bool)
        ensures
            r == self@.is_closed(),
    {
        self.bond_amount == 0 && self.pending_reward == 0 && self.pending_withdraw.len() == 0
    }

    /// Splits the pending reward over the weight table `weights`.
    pub fn convert_pending(&mut self, weights: &Vec<Asset>) -> (r: Result<(), StakingError>)
        ensures
            match r {
                Ok(()) => old(self)@.converted(assets_view(weights@)) == Ok::<
                    PositionView,
                    StakingError,
                >(final(self)@),
                Err(e) => old(self)@.converted(assets_view(weights@)) == Err::<
                    PositionView,
                    StakingError,
                >(e) && final(self)@ == old(self)@,
            },
    {
        if self.pending_reward == 0 {
            return Ok(());
        }
        let total = match sum_weights(weights) {
            Some(total) => total,
            None => {
                return Err(StakingError::ArithmeticInvariantViolation);
            },
        };
        if total == 0 {
            return Ok(());
        }
        let ghost table = assets_view(weights@);
        let ghost start = self@.pending_withdraw;
        let pending = self.pending_reward;
        let mut list = copy_assets(&self.pending_withdraw);
        let mut i: usize = 0;
        while i < weights.len()
            invariant
                i <= weights.len(),
                table == assets_view(weights@),
                total == total_weight(table),
                total > 0,
                *self == *old(self),
                start == old(self)@.pending_withdraw,
                pending == old(self).pending_reward,
                pending > 0,
                distributed(start, table.take(i as int), pending as nat, total as nat) == Some(
                    assets_view(list@),
                ),
            decreases weights.len() - i,
        {
            proof {
                assert(table.take(i + 1).drop_last() =~= table.take(i as int));
                lemma_weight_within_total(table, i as int);
                lemma_mul_ratio_bounded(pending as nat, weights[i as int].amount as nat, total as nat);
            }
            if weights[i].amount != 0 {
                let share = match checked_multiply_ratio(pending, weights[i].amount, total) {
                    Some(share) => share,
                    None => {
                        // a share is no more than what is pending
                        assert(false);
                        return Err(StakingError::ArithmeticInvariantViolation);
                    },
                };
                match update_reward_assets_amount(&mut list, &weights[i], share) {
                    Ok(()) => {},
                    Err(_) => {
                        proof {
                            assert(distributed(
                                start,
                                table.take(i + 1),
                                pending as nat,
                                total as nat,
                            ) is None);
                            lemma_distributed_prefix_fails(
                                start,
                                table,
                                pending as nat,
                                total as nat,
                                i + 1,
                            );
                        }
                        return Err(StakingError::ArithmeticInvariantViolation);
                    },
                }
            }
            i += 1;
        }
        assert(table.take(weights.len() as int) =~= table);
        self.pending_reward = 0;
        self.pending_withdraw = list;
        Ok(())
    }

    /// Settles the position against `pool_index`, splits what is pending over
    /// `weights`, and with `do_withdraw` moves every entry of
    /// `pending_withdraw` into the returned list of payments.
    pub fn process(&mut self, pool_index: u128, weights: &Vec<Asset>, do_withdraw: bool) -> (r:
        Result<Vec<Asset>, StakingError>)
        ensures
            match r {
                Ok(payments) => old(self)@.processed(
                    pool_index as nat,
                    assets_view(weights@),
                    do_withdraw,
                ) == Ok::<(PositionView, Seq<AssetView>), StakingError>(
                    (final(self)@, assets_view(payments@)),
                ),
                Err(e) => old(self)@.processed(pool_index as nat, assets_view(weights@), do_withdraw)
                    == Err::<(PositionView, Seq<AssetView>), StakingError>(e) && final(self)@ == old(
                    self,
                )@,
            },
    {
        let index_before = self.index;
        let pending_before = self.pending_reward;
        match before_share_change(pool_index, self) {
            Ok(()) => {},
            Err(e) => {
                return Err(e);
            },
        }
        match self.convert_pending(weights) {
            Ok(()) => {},
            Err(e) => {
                self.index = index_before;
                self.pending_reward = pending_before;
                return Err(e);
            },
        }
        let mut payments: Vec<Asset> = Vec::new();
        if do_withdraw {
            std::mem::swap(&mut payments, &mut self.pending_withdraw);
            assert(assets_view(self.pending_withdraw@) =~= Seq::<AssetView>::empty());
        } else {
            assert(assets_view(payments@) =~= Seq::<AssetView>::empty());
        }
        Ok(payments)
    }
}

/// Settles a position against `pool_index`: the reward accrued since the
/// position's own index moves to its pending reward, and its index becomes
/// `pool_index`. The work does not depend on how many stakers a pool has.
pub fn before_share_change(pool_index: u128, position: &mut StakerPosition) -> (r: Result<
    (),
    StakingError,
>)
    ensures
        match r {
            Ok(()) => old(position)@.settled(pool_index as nat) == Ok::<PositionView, StakingError>(
                final(position)@,
            ),
            Err(e) => old(position)@.settled(pool_index as nat) == Err::<PositionView, StakingError>(
                e,
            ) && final(position)@ == old(position)@,
        },
{
    if pool_index < position.index {
        return Err(StakingError::ArithmeticInvariantViolation);
    }
    proof {
        lemma_mul_floor_monotonic(
            position.bond_amount as nat,
            position.index as nat,
            pool_index as nat,
        );
    }
    let lower = match checked_mul_floor(position.bond_amount, position.index) {
        Some(lower) => lower,
        None => {
            return Err(StakingError::ArithmeticInvariantViolation);
        },
    };
    let upper = match checked_mul_floor(position.bond_amount, pool_index) {
        Some(upper) => upper,
        None => {
            return Err(StakingError::ArithmeticInvariantViolation);
        },
    };
    let accrued = upper - lower;
    match position.pending_reward.checked_add(accrued) {
        Some(pending) => {
            position.index = pool_index;
            position.pending_reward = pending;
            Ok(())
        },
        None => Err(StakingError::ArithmeticInvariantViolation),
    }
}

} // verus!
