use gfotstaking::address::Address;
use gfotstaking::contract::{
    execute_add_stakers, execute_remove_all_stakers, execute_remove_staker,
    execute_update_config, execute_update_constants, instantiate, try_receive, try_withdraw_fot,
};
use gfotstaking::error::ContractError;
use gfotstaking::msg::{Action, InstantiateMsg, Outcome, TransferNotice};
use gfotstaking::state::{Ledger, RewardPolicy, StakerInfo};

fn addr(text: &str) -> Address {
    Address::new(text.as_bytes().to_vec())
}

fn time_weighted_pool(daily: u128, interval: u64) -> Ledger {
    instantiate(
        addr("owner"),
        InstantiateMsg {
            owner: None,
            stake_token_address: addr("gfot"),
            reward_token_address: addr("fot"),
            conversion_token_address: Some(addr("bfot")),
            policy: RewardPolicy::TimeWeighted {
                daily_reward_amount: daily,
                apy_prefix: 109_500_000,
                reward_interval: interval,
            },
        },
    )
}

fn snapshot_pool(rate: u128) -> Ledger {
    instantiate(
        addr("owner"),
        InstantiateMsg {
            owner: None,
            stake_token_address: addr("stake"),
            reward_token_address: addr("reward"),
            conversion_token_address: None,
            policy: RewardPolicy::PoolSnapshot { daily_reward_rate: rate },
        },
    )
}

fn entry(who: &str, staked: u128, reward: u128, last: u64) -> StakerInfo {
    StakerInfo {
        address: addr(who),
        staked_amount: staked,
        accrued_reward: reward,
        last_accrual_time: last,
    }
}

fn bare(action: Action) -> Outcome {
    Outcome { action, address: None, amount: None, transfer: None }
}

fn seeded() -> Ledger {
    let mut ledger = time_weighted_pool(1000, 100);
    execute_add_stakers(
        &mut ledger,
        &addr("owner"),
        vec![entry("d", 4, 0, 0), entry("b", 2, 0, 0), entry("a", 1, 0, 0), entry("c", 3, 0, 0)],
    )
    .unwrap();
    ledger
}

#[test]
fn every_admin_request_of_a_stranger_is_rejected() {
    let mut ledger = seeded();
    let before = ledger.clone();
    let who = addr("stranger");
    let denied = Err(ContractError::Unauthorized {});
    assert_eq!(execute_update_config(&mut ledger, &who, Some(addr("stranger"))), denied);
    assert_eq!(execute_update_constants(&mut ledger, &who, 1, 2, 3), denied);
    assert_eq!(execute_add_stakers(&mut ledger, &who, vec![entry("z", 1, 1, 1)]), denied);
    assert_eq!(execute_remove_staker(&mut ledger, &who, &addr("a")), denied);
    assert_eq!(execute_remove_all_stakers(&mut ledger, &who, &None, None), denied);
    assert_eq!(try_withdraw_fot(&mut ledger, &who), denied);
    assert_eq!(ledger, before);
}

#[test]
fn update_config_names_the_next_owner() {
    let mut ledger = seeded();
    let out = execute_update_config(&mut ledger, &addr("owner"), Some(addr("heir")));
    assert_eq!(out, Ok(bare(Action::UpdateConfig)));
    assert_eq!(ledger.config.owner, Some(addr("heir")));
    assert_eq!(
        execute_update_config(&mut ledger, &addr("owner"), None),
        Err(ContractError::Unauthorized {})
    );
    assert_eq!(execute_update_config(&mut ledger, &addr("heir"), None), Ok(bare(Action::UpdateConfig)));
    assert_eq!(ledger.config.owner, None);
}

#[test]
fn a_pool_without_owner_stays_without() {
    let mut ledger = seeded();
    execute_update_config(&mut ledger, &addr("owner"), None).unwrap();
    let before = ledger.clone();
    let denied = Err(ContractError::Unauthorized {});
    assert_eq!(execute_update_config(&mut ledger, &addr("owner"), Some(addr("owner"))), denied);
    assert_eq!(execute_update_config(&mut ledger, &addr(""), Some(addr("owner"))), denied);
    assert_eq!(execute_remove_staker(&mut ledger, &addr("owner"), &addr("a")), denied);
    assert_eq!(ledger, before);
}

#[test]
fn update_constants_sets_the_time_weighted_parameters() {
    let mut ledger = seeded();
    let out = execute_update_constants(&mut ledger, &addr("owner"), 7, 8, 9);
    assert_eq!(out, Ok(bare(Action::UpdateConstants)));
    assert_eq!(
        ledger.config.policy,
        RewardPolicy::TimeWeighted { daily_reward_amount: 7, apy_prefix: 8, reward_interval: 9 }
    );
}

#[test]
fn update_constants_is_rejected_by_a_snapshot_pool() {
    let mut ledger = snapshot_pool(5);
    let before = ledger.clone();
    assert_eq!(
        execute_update_constants(&mut ledger, &addr("owner"), 7, 8, 9),
        Err(ContractError::InvalidInput {})
    );
    assert_eq!(
        execute_update_constants(&mut ledger, &addr("other"), 7, 8, 9),
        Err(ContractError::Unauthorized {})
    );
    assert_eq!(ledger, before);
}

#[test]
fn add_stakers_puts_records_and_leaves_the_totals() {
    let ledger = seeded();
    assert_eq!(
        ledger.stakers.to_vec(),
        vec![entry("a", 1, 0, 0), entry("b", 2, 0, 0), entry("c", 3, 0, 0), entry("d", 4, 0, 0)]
    );
    assert_eq!(ledger.config.pool_stake_total, 0);
    assert!(ledger.config.roster.is_empty());
}

#[test]
fn add_stakers_lets_the_later_of_two_records_stay() {
    let mut ledger = seeded();
    let out = execute_add_stakers(
        &mut ledger,
        &addr("owner"),
        vec![entry("b", 20, 1, 1), entry("e", 5, 0, 0), entry("b", 200, 2, 2)],
    );
    assert_eq!(out, Ok(bare(Action::AddStakers)));
    assert_eq!(ledger.stakers.get(&addr("b")), Some(entry("b", 200, 2, 2)));
    assert_eq!(ledger.stakers.len(), 5);
    let out = execute_add_stakers(&mut ledger, &addr("owner"), Vec::new());
    assert_eq!(out, Ok(bare(Action::AddStakers)));
    assert_eq!(ledger.stakers.len(), 5);
}

#[test]
fn remove_staker_takes_the_record_whatever_it_holds() {
    let mut ledger = seeded();
    let out = execute_remove_staker(&mut ledger, &addr("owner"), &addr("c"));
    assert_eq!(out, Ok(bare(Action::RemoveStaker)));
    assert_eq!(ledger.stakers.get(&addr("c")), None);
    assert_eq!(ledger.stakers.len(), 3);
    let out = execute_remove_staker(&mut ledger, &addr("owner"), &addr("c"));
    assert_eq!(out, Ok(bare(Action::RemoveStaker)));
    assert_eq!(ledger.stakers.len(), 3);
}

#[test]
fn remove_all_stakers_removes_one_batch_behind_the_cursor() {
    let mut ledger = seeded();
    let out = execute_remove_all_stakers(&mut ledger, &addr("owner"), &Some(addr("b")), Some(1));
    assert_eq!(out, Ok(bare(Action::RemoveAllStakers)));
    assert_eq!(
        ledger.stakers.to_vec(),
        vec![entry("a", 1, 0, 0), entry("b", 2, 0, 0), entry("d", 4, 0, 0)]
    );
    execute_remove_all_stakers(&mut ledger, &addr("owner"), &None, Some(2)).unwrap();
    assert_eq!(ledger.stakers.to_vec(), vec![entry("d", 4, 0, 0)]);
    execute_remove_all_stakers(&mut ledger, &addr("owner"), &None, Some(0)).unwrap();
    assert_eq!(ledger.stakers.len(), 1);
    execute_remove_all_stakers(&mut ledger, &addr("owner"), &Some(addr("d")), Some(5)).unwrap();
    assert_eq!(ledger.stakers.len(), 1);
}

#[test]
fn remove_all_stakers_with_limit_one_removes_one_of_three() {
    let mut ledger = time_weighted_pool(1000, 100);
    execute_add_stakers(
        &mut ledger,
        &addr("owner"),
        vec![entry("addr1", 1, 0, 5), entry("addr2", 2, 0, 5), entry("addr3", 3, 0, 5)],
    )
    .unwrap();
    let out = execute_remove_all_stakers(&mut ledger, &addr("owner"), &None, Some(1));
    assert_eq!(out, Ok(bare(Action::RemoveAllStakers)));
    assert_eq!(ledger.stakers.to_vec(), vec![entry("addr2", 2, 0, 5), entry("addr3", 3, 0, 5)]);
}

#[test]
fn remove_all_stakers_without_limit_removes_all_that_follow_the_cursor() {
    let mut ledger = seeded();
    execute_remove_all_stakers(&mut ledger, &addr("owner"), &Some(addr("b")), None).unwrap();
    assert_eq!(ledger.stakers.to_vec(), vec![entry("a", 1, 0, 0), entry("b", 2, 0, 0)]);
    execute_remove_all_stakers(&mut ledger, &addr("owner"), &Some(addr("b")), None).unwrap();
    assert_eq!(ledger.stakers.len(), 2);
    execute_remove_all_stakers(&mut ledger, &addr("owner"), &None, None).unwrap();
    assert_eq!(ledger.stakers.len(), 0);
}

#[test]
fn interventions_can_part_total_and_stakes() {
    let mut ledger = time_weighted_pool(1000, 100);
    let notice = TransferNotice { sender: addr("a"), amount: 10, payload: Vec::new() };
    try_receive(&mut ledger, 1, &addr("gfot"), &notice).unwrap();
    assert_eq!(ledger.config.pool_stake_total, 10);
    execute_remove_staker(&mut ledger, &addr("owner"), &addr("a")).unwrap();
    assert_eq!(ledger.stakers.len(), 0);
    assert_eq!(ledger.config.pool_stake_total, 10);
}
