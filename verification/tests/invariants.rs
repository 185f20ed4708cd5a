use gfotstaking::accrual::sweep_all;
use gfotstaking::address::Address;
use gfotstaking::contract::{checked_execute, instantiate, update_reward};
use gfotstaking::msg::{Action, ExecuteMsg, InstantiateMsg, TransferNotice};
use gfotstaking::state::{Ledger, RewardPolicy};

fn addr(text: &str) -> Address {
    Address::new(text.as_bytes().to_vec())
}

fn pool(policy: RewardPolicy) -> Ledger {
    instantiate(
        addr("owner"),
        InstantiateMsg {
            owner: None,
            stake_token_address: addr("stake"),
            reward_token_address: addr("reward"),
            conversion_token_address: None,
            policy,
        },
    )
}

fn time_weighted() -> RewardPolicy {
    RewardPolicy::TimeWeighted { daily_reward_amount: 977, apy_prefix: 1, reward_interval: 60 }
}

fn snapshot() -> RewardPolicy {
    RewardPolicy::PoolSnapshot { daily_reward_rate: 977 }
}

fn staked_sum(ledger: &Ledger) -> u128 {
    ledger.stakers.to_vec().iter().map(|e| e.staked_amount).sum()
}

fn reward_sum(ledger: &Ledger) -> u128 {
    ledger.stakers.to_vec().iter().map(|e| e.accrued_reward).sum()
}

/// A fixed run of requests by five participants, drawn from a small generator.
fn requests(len: usize, day: u64) -> Vec<(u64, Address, ExecuteMsg)> {
    let who = ["ann", "bob", "cyd", "dee", "eve"];
    let mut seed: u64 = 0x2545_f491_4f6c_dd1d;
    let mut now: u64 = 1;
    let mut out = Vec::new();
    for _ in 0..len {
        seed = seed.wrapping_mul(6364136223846793005).wrapping_add(1442695040888963407);
        let pick = (seed >> 33) as usize;
        let user = addr(who[pick % 5]);
        now += (seed >> 20) % (day / 2 + 1);
        let amount = ((seed >> 7) % 1000) as u128;
        let request = match (pick / 5) % 13 {
            0 | 1 | 6 | 7 => (
                addr("stake"),
                ExecuteMsg::Receive(TransferNotice { sender: user, amount, payload: Vec::new() }),
            ),
            2 | 8 => (
                addr("reward"),
                ExecuteMsg::Receive(TransferNotice {
                    sender: user,
                    amount: amount * 50,
                    payload: Vec::new(),
                }),
            ),
            3 | 9 => (user, ExecuteMsg::ClaimReward {}),
            4 | 10 => (user, ExecuteMsg::Unstake {}),
            5 | 11 => (addr("owner"), ExecuteMsg::WithdrawRewardToken {}),
            _ => (addr("owner"), ExecuteMsg::WithdrawStakeToken {}),
        };
        out.push((now, request.0, request.1));
    }
    out
}

#[test]
fn pool_total_stays_the_sum_of_stakes() {
    for policy in [time_weighted(), snapshot()] {
        let mut ledger = pool(policy);
        let mut done = 0;
        for (now, sender, msg) in requests(400, 86400) {
            let before = ledger.clone();
            match checked_execute(&mut ledger, now, &sender, msg).unwrap() {
                Ok(_) => done += 1,
                Err(_) => assert_eq!(ledger, before),
            }
            assert_eq!(staked_sum(&ledger), ledger.config.pool_stake_total);
        }
        assert!(done > 100);
    }
}

#[test]
fn no_record_is_left_that_holds_nothing() {
    for policy in [time_weighted(), snapshot()] {
        let mut ledger = pool(policy);
        for (now, sender, msg) in requests(400, 86400) {
            let _ = checked_execute(&mut ledger, now, &sender, msg).unwrap();
            for e in ledger.stakers.to_vec() {
                assert!(e.staked_amount > 0 || e.accrued_reward > 0);
            }
        }
    }
}

#[test]
fn reward_held_moves_by_the_amount_of_the_event() {
    for policy in [time_weighted(), snapshot()] {
        let mut ledger = pool(policy);
        let mut claims = 0;
        for (now, sender, msg) in requests(400, 86400) {
            let held = ledger.config.pool_reward_held;
            let total = ledger.config.pool_stake_total;
            if let Ok(out) = checked_execute(&mut ledger, now, &sender, msg).unwrap() {
                let amount = out.amount.unwrap();
                match out.action {
                    Action::Fund => {
                        assert_eq!(ledger.config.pool_reward_held, held + amount);
                        assert_eq!(out.transfer, None);
                    }
                    Action::ClaimReward | Action::WithdrawReward => {
                        claims += 1;
                        assert_eq!(ledger.config.pool_reward_held, held - amount);
                        let transfer = out.transfer.unwrap();
                        assert_eq!(transfer.amount, amount);
                        assert_eq!(transfer.token, addr("reward"));
                        assert_eq!(transfer.recipient, sender);
                    }
                    Action::Stake => {
                        assert_eq!(ledger.config.pool_reward_held, held);
                        assert_eq!(ledger.config.pool_stake_total, total + amount);
                    }
                    Action::Unstake => {
                        assert_eq!(ledger.config.pool_reward_held, held);
                        assert_eq!(ledger.config.pool_stake_total, total - amount);
                        assert_eq!(out.transfer.unwrap().token, addr("stake"));
                    }
                    Action::WithdrawStake => {
                        assert_eq!(amount, total);
                        assert_eq!(ledger.config.pool_reward_held, held);
                        assert_eq!(ledger.config.pool_stake_total, 0);
                        assert_eq!(staked_sum(&ledger), 0);
                        assert_eq!(out.transfer.unwrap().amount, total);
                    }
                    _ => assert_eq!(ledger.config.pool_reward_held, held),
                }
            }
        }
        assert!(claims > 10);
    }
}

#[test]
fn accrual_twice_changes_nothing_the_second_time() {
    for policy in [time_weighted(), snapshot()] {
        let mut ledger = pool(policy);
        for (now, sender, msg) in requests(200, 86400) {
            let _ = checked_execute(&mut ledger, now, &sender, msg).unwrap();
            for who in ["ann", "bob", "zed"] {
                let mut once = ledger.clone();
                update_reward(&mut once, now + 100_000, &addr(who)).unwrap();
                let mut twice = once.clone();
                update_reward(&mut twice, now + 100_000, &addr(who)).unwrap();
                assert_eq!(twice, once);
            }
        }
    }
}

#[test]
fn sweeps_stay_within_the_schedule() {
    let mut ledger = pool(snapshot());
    sweep_all(&mut ledger, 0);
    let first_day = 0;
    let start = reward_sum(&ledger);
    let mut claimed: u128 = 0;
    let mut distributed: u128 = 0;
    for (now, sender, msg) in requests(300, 3 * 86400) {
        if let Ok(out) = checked_execute(&mut ledger, now, &sender, msg).unwrap() {
            if out.action == Action::ClaimReward {
                claimed += out.amount.unwrap();
            }
        }
        let before = reward_sum(&ledger);
        let from = ledger.config.last_accrual_time.unwrap() / 86400;
        sweep_all(&mut ledger, now + 86400);
        let to = ledger.config.last_accrual_time.unwrap() / 86400;
        let gained = reward_sum(&ledger) - before;
        assert!(gained <= 977 * (to - from) as u128);
        distributed += gained;
    }
    let last_day = ledger.config.last_accrual_time.unwrap() / 86400;
    assert!(distributed > 0);
    assert!(last_day > first_day);
    // all that was ever credited, claimed or not, is within the schedule of the window
    let credited = reward_sum(&ledger) + claimed - start;
    assert!(credited >= distributed);
    assert!(credited <= 977 * (last_day - first_day) as u128);
}

#[test]
fn one_accrual_stays_within_the_schedule() {
    let mut ledger = pool(time_weighted());
    let mut gained_once = false;
    for (now, sender, msg) in requests(300, 600) {
        let _ = checked_execute(&mut ledger, now, &sender, msg).unwrap();
        for who in ["ann", "bob", "cyd"] {
            let before = reward_sum(&ledger);
            let record = ledger.stakers.get(&addr(who));
            let later = now + 1234;
            update_reward(&mut ledger, later, &addr(who)).unwrap();
            let gained = reward_sum(&ledger) - before;
            match record {
                None => assert_eq!(gained, 0),
                Some(r) => {
                    let periods = later / 60 - r.last_accrual_time / 60;
                    assert!(gained <= 977 * periods as u128);
                    gained_once = gained_once || gained > 0;
                }
            }
        }
    }
    assert!(gained_once);
}
