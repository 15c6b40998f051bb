//! Bonding and unbonding on the ledger.

use crate::asset::AssetInfo;
use crate::bytes::{bytes_eq, copy_bytes};
use crate::error::StakingError;
use crate::laws::{lemma_call_keeps_sound, Call};
use crate::ledger::{
    lemma_swap_back, pay_to, Ledger, LedgerView, PaymentInstruction, ReceiptView, UnbondReceipt,
};
use crate::stakers::Pool;
use vstd::prelude::*;

verus! {

impl LedgerView {
    /// The ledger after the contract at `contract`, as `sender`, bonds for
    /// `staker` what the contract's balance of the staking token has grown
    /// by, from `previous` to `current`. Only the contract itself may call.
    pub open spec fn auto_staked(
        self,
        sender: Seq<u8>,
        contract: Seq<u8>,
        staker: Seq<u8>,
        asset: crate::asset::AssetInfoView,
        previous: nat,
        current: nat,
    ) -> Result<LedgerView, StakingError> {
        if sender != contract {
            Err(StakingError::Unauthorized)
        } else if current < previous {
            Err(StakingError::ArithmeticInvariantViolation)
        } else {
            self.bonded(staker, asset, (current - previous) as nat)
        }
    }

    /// The ledger after the staking token `sender` hands in `amount` to bond
    /// for `staker`. Only the staking token of the asset's pool may.
    pub open spec fn bonded_by_token(
        self,
        sender: Seq<u8>,
        staker: Seq<u8>,
        asset: crate::asset::AssetInfoView,
        amount: nat,
    ) -> Result<LedgerView, StakingError> {
        match self.pool(asset.id) {
            None => Err(StakingError::NotFound),
            Some(pool) => if pool.account.staking_token != sender {
                Err(StakingError::Unauthorized)
            } else {
                self.bonded(staker, asset, amount)
            },
        }
    }
}

/// Bonds `amount` of the staking token for `staker_addr` in the pool of
/// `asset_info`.
pub fn bond(ledger: &mut Ledger, staker_addr: &Vec<u8>, asset_info: &AssetInfo, amount: u128) -> (r:
    Result<(), StakingError>)
    requires
        old(ledger)@.wf(),
    ensures
        final(ledger)@.wf(),
        match r {
            Ok(()) => old(ledger)@.bonded(staker_addr@, asset_info@, amount as nat) == Ok::<
                LedgerView,
                StakingError,
            >(final(ledger)@),
            Err(e) => old(ledger)@.bonded(staker_addr@, asset_info@, amount as nat) == Err::<
                LedgerView,
                StakingError,
            >(e) && final(ledger)@ == old(ledger)@,
        },
        old(ledger)@.sound() ==> final(ledger)@.sound(),
{
    proof {
        if ledger@.sound() {
            lemma_call_keeps_sound(
                ledger@,
                Call::Bond { staker: staker_addr@, asset: asset_info@, amount: amount as nat },
            );
        }
    }
    let key = asset_info.to_vec();
    let (i, found) = ledger.pools.find(&key);
    if !found {
        return Err(StakingError::NotFound);
    }
    let mut pool = Pool::new(Vec::new());
    ledger.pools.swap_value_at(i, &mut pool);
    let outcome = pool.increase_bond_amount(staker_addr, asset_info.is_native_token(), amount);
    let ghost after = pool@;
    ledger.pools.swap_value_at(i, &mut pool);
    proof {
        assert(ledger@.pools =~= old(ledger)@.pools.update(
            i as int,
            (old(ledger)@.pools[i as int].0, after),
        ));
        lemma_swap_back(old(ledger)@.pools, i as int, after);
    }
    outcome
}

/// Bonds `amount` for `staker_addr` on behalf of the staking token `sender`,
/// which has received the amount. Only the staking token of the asset's pool
/// is heard.
pub fn bond_from_token(
    ledger: &mut Ledger,
    sender: &Vec<u8>,
    staker_addr: &Vec<u8>,
    asset_info: &AssetInfo,
    amount: u128,
) -> (r: Result<(), StakingError>)
    requires
        old(ledger)@.wf(),
    ensures
        final(ledger)@.wf(),
        match r {
            Ok(()) => old(ledger)@.bonded_by_token(
                sender@,
                staker_addr@,
                asset_info@,
                amount as nat,
            ) == Ok::<LedgerView, StakingError>(final(ledger)@),
            Err(e) => old(ledger)@.bonded_by_token(
                sender@,
                staker_addr@,
                asset_info@,
                amount as nat,
            ) == Err::<LedgerView, StakingError>(e) && final(ledger)@ == old(ledger)@,
        },
        old(ledger)@.sound() ==> final(ledger)@.sound(),
{
    let key = asset_info.to_vec();
    match ledger.pools.get(&key) {
        None => {
            return Err(StakingError::NotFound);
        },
        Some(pool) => {
            if !bytes_eq(&pool.account.staking_token, sender) {
                return Err(StakingError::Unauthorized);
            }
        },
    }
    bond(ledger, staker_addr, asset_info, amount)
}

/// Unbonds `amount` of the staking token for `staker_addr` from the pool of
/// `asset_info`. The receipt names the transfer that hands the amount back,
/// and the payments of the rewards of a position that was closed.
pub fn unbond(ledger: &mut Ledger, staker_addr: &Vec<u8>, asset_info: &AssetInfo, amount: u128) -> (r:
    Result<UnbondReceipt, StakingError>)
    requires
        old(ledger)@.wf(),
    ensures
        final(ledger)@.wf(),
        match r {
            Ok(receipt) => old(ledger)@.unbonded(staker_addr@, asset_info@, amount as nat) == Ok::<
                (LedgerView, ReceiptView),
                StakingError,
            >((final(ledger)@, receipt@)),
            Err(e) => old(ledger)@.unbonded(staker_addr@, asset_info@, amount as nat) == Err::<
                (LedgerView, ReceiptView),
                StakingError,
            >(e) && final(ledger)@ == old(ledger)@,
        },
        old(ledger)@.sound() ==> final(ledger)@.sound(),
{
    proof {
        if ledger@.sound() {
            lemma_call_keeps_sound(
                ledger@,
                Call::Unbond { staker: staker_addr@, asset: asset_info@, amount: amount as nat },
            );
        }
    }
    let key = asset_info.to_vec();
    let (i, found) = ledger.pools.find(&key);
    if !found {
        return Err(StakingError::NotFound);
    }
    let mut pool = Pool::new(Vec::new());
    ledger.pools.swap_value_at(i, &mut pool);
    let outcome = pool.decrease_bond_amount(staker_addr, amount);
    let ghost after = pool@;
    ledger.pools.swap_value_at(i, &mut pool);
    proof {
        assert(ledger@.pools =~= old(ledger)@.pools.update(
            i as int,
            (old(ledger)@.pools[i as int].0, after),
        ));
        lemma_swap_back(old(ledger)@.pools, i as int, after);
    }
    match outcome {
        Ok((staking_token, reward_assets)) => Ok(
            UnbondReceipt {
                transfer: PaymentInstruction {
                    recipient: copy_bytes(staker_addr),
                    asset: AssetInfo::Token { contract_addr: staking_token },
                    amount,
                },
                reward_payments: pay_to(staker_addr, reward_assets),
            },
        ),
        Err(e) => Err(e),
    }
}

/// Bonds for `staker_addr` what the balance of the staking token of the
/// contract at `contract_addr` has grown by since liquidity was provided:
/// from `prev_staking_token_amount` to `current_staking_token_amount`. Only
/// the contract itself may call.
pub fn auto_stake_hook(
    ledger: &mut Ledger,
    sender: &Vec<u8>,
    contract_addr: &Vec<u8>,
    asset_info: &AssetInfo,
    staker_addr: &Vec<u8>,
    prev_staking_token_amount: u128,
    current_staking_token_amount: u128,
) -> (r: Result<(), StakingError>)
    requires
        old(ledger)@.wf(),
    ensures
        final(ledger)@.wf(),
        match r {
            Ok(()) => old(ledger)@.auto_staked(
                sender@,
                contract_addr@,
                staker_addr@,
                asset_info@,
                prev_staking_token_amount as nat,
                current_staking_token_amount as nat,
            ) == Ok::<LedgerView, StakingError>(final(ledger)@),
            Err(e) => old(ledger)@.auto_staked(
                sender@,
                contract_addr@,
                staker_addr@,
                asset_info@,
                prev_staking_token_amount as nat,
                current_staking_token_amount as nat,
            ) == Err::<LedgerView, StakingError>(e) && final(ledger)@ == old(ledger)@,
        },
        old(ledger)@.sound() ==> final(ledger)@.sound(),
{
    if !bytes_eq(sender, contract_addr) {
        return Err(StakingError::Unauthorized);
    }
    let amount_to_stake = match current_staking_token_amount.checked_sub(prev_staking_token_amount) {
        Some(amount) => amount,
        None => {
            return Err(StakingError::ArithmeticInvariantViolation);
        },
    };
    bond(ledger, staker_addr, asset_info, amount_to_stake)
}

} // verus!
