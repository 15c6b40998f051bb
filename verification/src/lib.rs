//! Reward accounting for staked liquidity-pool shares.
//!
//! A pool tracks how much each staker has bonded and converts reward deposits
//! into per-staker entitlements through a cumulative reward index, so that a
//! deposit never has to visit every staker. A pool whose staking token is
//! replaced freezes the index for the stakers that were bonded at that moment.
//!
//! The records are in `position` and `pool`, a pool with its stakers in
//! `stakers`, and all pools in `ledger`. The operations on the ledger are in
//! `staking`, `rewards` and `query`. What they keep true is in `invariants`,
//! and what follows for every sequence of calls in `laws`. The arithmetic of
//! the index is in `fixed_point`, the ordered maps in `sorted_map`.
//!
//! Every operation either succeeds or leaves the ledger as it was.

pub mod amount;
pub mod asset;
pub mod auto_stake;
pub mod bytes;
pub mod error;
pub mod fixed_point;
pub mod invariants;
pub mod laws;
pub mod ledger;
pub mod legacy;
pub mod limit_order;
pub mod pool;
pub mod position;
pub mod query;
pub mod rewards;
pub mod sorted_map;
pub mod stakers;
pub mod staking;
