use gfotstaking::accrual::{accrue_time_weighted, sweep_all};
use gfotstaking::address::Address;
use gfotstaking::contract::{
    checked_update_reward, execute_add_stakers, execute_remove_staker, instantiate, query_staker,
    try_receive, try_unstake, update_reward,
};
use gfotstaking::msg::{Action, InstantiateMsg, Outcome, TransferNotice};
use gfotstaking::state::{Ledger, RewardPolicy, StakerInfo};

fn addr(text: &str) -> Address {
    Address::new(text.as_bytes().to_vec())
}

fn time_weighted_pool(daily: u128, interval: u64) -> Ledger {
    instantiate(
        addr("owner"),
        InstantiateMsg {
            owner: None,
            stake_token_address: addr("gfot"),
            reward_token_address: addr("fot"),
            conversion_token_address: Some(addr("bfot")),
            policy: RewardPolicy::TimeWeighted {
                daily_reward_amount: daily,
                apy_prefix: 109_500_000,
                reward_interval: interval,
            },
        },
    )
}

fn snapshot_pool(rate: u128) -> Ledger {
    instantiate(
        addr("owner"),
        InstantiateMsg {
            owner: None,
            stake_token_address: addr("stake"),
            reward_token_address: addr("reward"),
            conversion_token_address: None,
            policy: RewardPolicy::PoolSnapshot { daily_reward_rate: rate },
        },
    )
}

fn notice(sender: &str, amount: u128) -> TransferNotice {
    TransferNotice { sender: addr(sender), amount, payload: vec![1, 2, 3] }
}

fn record(ledger: &Ledger, who: &str) -> (u128, u128, u64) {
    let r = query_staker(ledger, &addr(who));
    (r.staked_amount, r.accrued_reward, r.last_accrual_time)
}

fn entry(who: &str, staked: u128, reward: u128, last: u64) -> StakerInfo {
    StakerInfo {
        address: addr(who),
        staked_amount: staked,
        accrued_reward: reward,
        last_accrual_time: last,
    }
}

#[test]
fn first_accrual_makes_a_fresh_record() {
    let mut ledger = time_weighted_pool(1000, 100);
    accrue_time_weighted(&mut ledger, 12345, &addr("alice"));
    assert_eq!(ledger.stakers.get(&addr("alice")), Some(entry("alice", 0, 0, 12345)));
    assert_eq!(ledger.stakers.len(), 1);
    assert_eq!(ledger.config.pool_stake_total, 0);
}

#[test]
fn time_weighted_share_is_rounded_down() {
    let mut ledger = time_weighted_pool(1000, 100);
    try_receive(&mut ledger, 50, &addr("gfot"), &notice("alice", 1)).unwrap();
    try_receive(&mut ledger, 60, &addr("gfot"), &notice("bob", 2)).unwrap();
    // two intervals later: 1000 * 2 * 1 / 3 = 666 and 1000 * 2 * 2 / 3 = 1333
    accrue_time_weighted(&mut ledger, 250, &addr("alice"));
    accrue_time_weighted(&mut ledger, 299, &addr("bob"));
    assert_eq!(record(&ledger, "alice"), (1, 666, 250));
    assert_eq!(record(&ledger, "bob"), (2, 1333, 299));
}

#[test]
fn periods_are_counted_by_boundaries_not_by_seconds() {
    let mut ledger = time_weighted_pool(1000, 100);
    try_receive(&mut ledger, 199, &addr("gfot"), &notice("alice", 10)).unwrap();
    // one second later a boundary lies behind the record
    accrue_time_weighted(&mut ledger, 200, &addr("alice"));
    assert_eq!(record(&ledger, "alice"), (10, 1000, 200));
    // ninety-nine seconds later none does
    accrue_time_weighted(&mut ledger, 299, &addr("alice"));
    assert_eq!(record(&ledger, "alice"), (10, 1000, 200));
}

#[test]
fn accrual_without_earning_leaves_the_time() {
    let mut ledger = time_weighted_pool(1000, 100);
    try_receive(&mut ledger, 10, &addr("gfot"), &notice("alice", 10)).unwrap();
    let before = ledger.clone();
    accrue_time_weighted(&mut ledger, 99, &addr("alice"));
    assert_eq!(ledger, before);
    // a time before the record's own earns nothing either
    accrue_time_weighted(&mut ledger, 3, &addr("alice"));
    assert_eq!(ledger, before);
}

#[test]
fn accrual_twice_at_one_time_is_accrual_once() {
    let mut ledger = time_weighted_pool(1000, 100);
    try_receive(&mut ledger, 10, &addr("gfot"), &notice("alice", 10)).unwrap();
    accrue_time_weighted(&mut ledger, 510, &addr("alice"));
    let once = ledger.clone();
    assert_eq!(record(&once, "alice"), (10, 5000, 510));
    accrue_time_weighted(&mut ledger, 510, &addr("alice"));
    assert_eq!(ledger, once);
    accrue_time_weighted(&mut ledger, 599, &addr("alice"));
    assert_eq!(ledger, once);
}

#[test]
fn record_without_stake_earns_nothing() {
    let mut ledger = time_weighted_pool(1000, 100);
    try_receive(&mut ledger, 10, &addr("gfot"), &notice("bob", 5)).unwrap();
    accrue_time_weighted(&mut ledger, 20, &addr("alice"));
    accrue_time_weighted(&mut ledger, 900, &addr("alice"));
    assert_eq!(record(&ledger, "alice"), (0, 0, 20));
}

#[test]
fn empty_pool_total_skips_accrual() {
    let mut ledger = time_weighted_pool(1000, 100);
    execute_add_stakers(&mut ledger, &addr("owner"), vec![entry("alice", 10, 0, 0)]).unwrap();
    assert_eq!(ledger.config.pool_stake_total, 0);
    accrue_time_weighted(&mut ledger, 1000, &addr("alice"));
    assert_eq!(record(&ledger, "alice"), (10, 0, 0));
}

#[test]
fn stored_time_zero_counts_as_a_time() {
    let mut ledger = time_weighted_pool(1000, 100);
    try_receive(&mut ledger, 0, &addr("gfot"), &notice("alice", 10)).unwrap();
    assert_eq!(record(&ledger, "alice"), (10, 0, 0));
    accrue_time_weighted(&mut ledger, 100, &addr("alice"));
    assert_eq!(record(&ledger, "alice"), (10, 1000, 100));
}

#[test]
fn update_reward_follows_the_policy() {
    let mut a = time_weighted_pool(1000, 100);
    let out = update_reward(&mut a, 77, &addr("alice")).unwrap();
    assert_eq!(out, Outcome { action: Action::Nothing, address: None, amount: None, transfer: None });
    assert_eq!(a.stakers.get(&addr("alice")), Some(entry("alice", 0, 0, 77)));
    assert_eq!(a.config.last_accrual_time, None);

    let mut b = snapshot_pool(1000);
    update_reward(&mut b, 77, &addr("alice")).unwrap();
    assert_eq!(b.stakers.len(), 0);
    assert_eq!(b.config.last_accrual_time, Some(77));
}

#[test]
fn engines_leave_a_ledger_of_the_other_policy() {
    let mut a = time_weighted_pool(1000, 100);
    let before = a.clone();
    sweep_all(&mut a, 1_000_000);
    assert_eq!(a, before);

    let mut b = snapshot_pool(1000);
    let before = b.clone();
    accrue_time_weighted(&mut b, 1_000_000, &addr("alice"));
    assert_eq!(b, before);
}

#[test]
fn first_sweep_only_marks_the_time() {
    let mut ledger = snapshot_pool(1000);
    execute_add_stakers(&mut ledger, &addr("owner"), vec![entry("a", 5, 0, 0)]).unwrap();
    sweep_all(&mut ledger, 10 * 86400);
    assert_eq!(ledger.config.last_accrual_time, Some(864000));
    assert_eq!(record(&ledger, "a"), (5, 0, 0));
}

#[test]
fn sweep_within_the_day_changes_nothing() {
    let mut ledger = snapshot_pool(1000);
    try_receive(&mut ledger, 86400, &addr("stake"), &notice("a", 5)).unwrap();
    let before = ledger.clone();
    sweep_all(&mut ledger, 2 * 86400 - 1);
    assert_eq!(ledger, before);
    sweep_all(&mut ledger, 17);
    assert_eq!(ledger, before);
}

#[test]
fn sweep_splits_each_day_by_stake_rounded_down() {
    let mut ledger = snapshot_pool(1000);
    try_receive(&mut ledger, 5, &addr("stake"), &notice("a", 1)).unwrap();
    try_receive(&mut ledger, 6, &addr("stake"), &notice("b", 1)).unwrap();
    try_receive(&mut ledger, 7, &addr("stake"), &notice("c", 1)).unwrap();
    // three days: the pot is 3000, each third is 1000
    sweep_all(&mut ledger, 3 * 86400);
    assert_eq!(record(&ledger, "a").1, 1000);
    assert_eq!(record(&ledger, "b").1, 1000);
    assert_eq!(record(&ledger, "c").1, 1000);
    // one more day: 1000 / 3 = 333 each, one unit is not paid out
    sweep_all(&mut ledger, 4 * 86400 + 9);
    assert_eq!(record(&ledger, "a").1, 1333);
    assert_eq!(record(&ledger, "b").1, 1333);
    assert_eq!(record(&ledger, "c").1, 1333);
    assert_eq!(ledger.config.last_accrual_time, Some(4 * 86400 + 9));
}

#[test]
fn sweep_twice_at_one_time_is_sweep_once() {
    let mut ledger = snapshot_pool(700);
    try_receive(&mut ledger, 5, &addr("stake"), &notice("a", 3)).unwrap();
    try_receive(&mut ledger, 6, &addr("stake"), &notice("b", 4)).unwrap();
    sweep_all(&mut ledger, 86400);
    let once = ledger.clone();
    assert_eq!(record(&once, "a").1, 300);
    assert_eq!(record(&once, "b").1, 400);
    sweep_all(&mut ledger, 86400);
    assert_eq!(ledger, once);
}

#[test]
fn sweep_with_nothing_behind_the_roster_marks_the_time_only() {
    let mut ledger = snapshot_pool(1000);
    try_receive(&mut ledger, 5, &addr("stake"), &notice("a", 3)).unwrap();
    try_receive(&mut ledger, 5, &addr("reward"), &notice("f", 1)).unwrap();
    sweep_all(&mut ledger, 86400);
    assert_eq!(record(&ledger, "a"), (3, 1000, 5));
    try_unstake(&mut ledger, 86401, &addr("a")).unwrap();
    assert_eq!(record(&ledger, "a"), (0, 1000, 5));
    sweep_all(&mut ledger, 5 * 86400);
    assert_eq!(record(&ledger, "a"), (0, 1000, 5));
    assert_eq!(ledger.config.last_accrual_time, Some(5 * 86400));
}

#[test]
fn roster_entry_without_record_gets_nothing() {
    let mut ledger = snapshot_pool(1000);
    try_receive(&mut ledger, 5, &addr("stake"), &notice("a", 1)).unwrap();
    try_receive(&mut ledger, 5, &addr("stake"), &notice("b", 3)).unwrap();
    execute_remove_staker(&mut ledger, &addr("owner"), &addr("a")).unwrap();
    assert_eq!(ledger.config.roster, vec![addr("a"), addr("b")]);
    sweep_all(&mut ledger, 86400);
    assert_eq!(ledger.stakers.get(&addr("a")), None);
    assert_eq!(record(&ledger, "b").1, 1000);
}

#[test]
fn roster_keeps_who_left_and_names_who_returns_once() {
    let mut ledger = snapshot_pool(900);
    try_receive(&mut ledger, 5, &addr("stake"), &notice("a", 10)).unwrap();
    try_unstake(&mut ledger, 6, &addr("a")).unwrap();
    assert_eq!(ledger.stakers.len(), 0);
    assert_eq!(ledger.config.roster, vec![addr("a")]);
    try_receive(&mut ledger, 7, &addr("stake"), &notice("a", 10)).unwrap();
    try_receive(&mut ledger, 8, &addr("stake"), &notice("b", 10)).unwrap();
    try_receive(&mut ledger, 9, &addr("stake"), &notice("b", 10)).unwrap();
    assert_eq!(ledger.config.roster, vec![addr("a"), addr("b")]);
    // behind the roster stand 30: shares go by stake, 900 * 10 / 30 and 900 * 20 / 30
    sweep_all(&mut ledger, 86400);
    assert_eq!(record(&ledger, "a").1, 300);
    assert_eq!(record(&ledger, "b").1, 600);
}

#[test]
fn checked_update_reward_answers_none_where_amounts_do_not_fit() {
    let mut ledger = time_weighted_pool(u128::MAX / 2, 100);
    try_receive(&mut ledger, 5, &addr("gfot"), &notice("alice", 1)).unwrap();
    let before = ledger.clone();
    // three periods of half the maximum do not fit
    assert_eq!(checked_update_reward(&mut ledger, 305, &addr("alice")), None);
    assert_eq!(ledger, before);
    // two periods do: 2 * (MAX / 2) * 1 / 1
    let out = checked_update_reward(&mut ledger, 205, &addr("alice")).unwrap();
    assert_eq!(out.action, Action::Nothing);
    assert_eq!(record(&ledger, "alice"), (1, u128::MAX - 1, 205));
    // one more unit of reward fits, two do not
    let before = ledger.clone();
    assert_eq!(checked_update_reward(&mut ledger, 305, &addr("alice")), None);
    assert_eq!(ledger, before);
}

#[test]
fn checked_update_reward_on_a_snapshot_pool() {
    let mut ledger = snapshot_pool(u128::MAX);
    try_receive(&mut ledger, 5, &addr("stake"), &notice("a", 2)).unwrap();
    let before = ledger.clone();
    // the pot fits, the pot times the stake does not
    assert_eq!(checked_update_reward(&mut ledger, 86400, &addr("a")), None);
    assert_eq!(ledger, before);
    assert!(checked_update_reward(&mut ledger, 86399, &addr("a")).is_some());
    assert_eq!(ledger, before);
}
