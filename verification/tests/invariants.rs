use oraiswap_staking::asset::{Asset, AssetInfo};
use oraiswap_staking::ledger::Ledger;
use oraiswap_staking::rewards::{
    deposit_reward, process_reward_assets, withdraw_reward, withdraw_reward_others,
};
use oraiswap_staking::staking::{bond, unbond};

fn id(s: &str) -> Vec<u8> {
    s.as_bytes().to_vec()
}

fn token(s: &str) -> AssetInfo {
    AssetInfo::Token { contract_addr: id(s) }
}

fn native(s: &str) -> AssetInfo {
    AssetInfo::NativeToken { denom: id(s) }
}

/// Checks by hand what the ledger is proved to keep.
fn assert_sound(ledger: &Ledger) {
    assert!(ledger.is_well_formed());
    for (_, pool) in ledger.pools.entries.iter() {
        let account = &pool.account;
        if account.migration.is_none() {
            let sum: u128 = pool.positions.entries.iter().map(|(_, p)| p.bond_amount).sum();
            assert_eq!(sum, account.total_bond_amount);
        }
        if let Some(snapshot) = &account.migration {
            assert!(snapshot.index_snapshot <= account.reward_index);
        }
        for (staker, position) in pool.positions.entries.iter() {
            assert!(!position.is_closed());
            assert!(position.index <= pool.effective_index(staker));
            for (i, a) in position.pending_withdraw.iter().enumerate() {
                for b in position.pending_withdraw.iter().skip(i + 1) {
                    assert_ne!(a.info, b.info);
                }
            }
        }
    }
}

#[test]
fn every_call_keeps_the_ledger_sound() {
    let stakers = ["ann", "bob", "cyd", "dee"];
    let pools = ["p1", "p2", "p3"];
    let rewards = ["x", "y", "z"];
    let mut ledger = Ledger::new(id("owner"), id("rewarder"));
    assert_sound(&ledger);
    // a small generator makes the run the same every time
    let mut seed: u64 = 0x2545_f491_4f6c_dd1d;
    let mut next = move |bound: u64| {
        seed ^= seed << 13;
        seed ^= seed >> 7;
        seed ^= seed << 17;
        seed % bound
    };
    let mut succeeded = 0;
    for round in 0..3000 {
        let staker = id(stakers[next(4) as usize]);
        let pool = pools[next(3) as usize];
        let amount = next(50) as u128;
        let ok = match next(10) {
            0 => ledger.register_pool(id(pool), id("lp")),
            1 => {
                let weights = (0..next(4))
                    .map(|_| Asset { info: native(rewards[next(3) as usize]), amount: next(4) as u128 })
                    .collect();
                ledger.set_reward_weights(&id(pool), weights).is_ok()
            }
            2 => {
                let fresh = match ledger.pools.get(&id(pool)) {
                    Some(p) => p.account.migration.is_none(),
                    None => true,
                };
                // a pool is migrated once, and late in the run
                fresh && round > 2000 && ledger.migrate(&id(pool), id("lp2")).is_ok()
            }
            3 | 4 => bond(&mut ledger, &staker, &token(pool), amount).is_ok(),
            5 => unbond(&mut ledger, &staker, &token(pool), amount).is_ok(),
            6 | 7 => deposit_reward(
                &mut ledger,
                &id("rewarder"),
                &vec![Asset { info: token(pool), amount }],
            )
            .is_ok(),
            8 => {
                let key = if amount % 2 == 0 { Some(id(pool)) } else { None };
                process_reward_assets(&mut ledger, &staker, &key, amount % 3 == 0).is_ok()
            }
            _ => {
                if amount % 2 == 0 {
                    withdraw_reward(&mut ledger, &staker, &None).is_ok()
                } else {
                    withdraw_reward_others(&mut ledger, &id("owner"), &vec![staker, id("bob")], &None)
                        .is_ok()
                }
            }
        };
        if ok {
            succeeded += 1;
        }
        assert_sound(&ledger);
    }
    // the run is no run of refusals
    assert!(succeeded > 1500);
    assert_eq!(ledger.pools.len(), 3);
}
