use gfotstaking::address::Address;
use gfotstaking::contract::{
    checked_execute, checked_query, execute_add_stakers, instantiate, try_receive,
};
use gfotstaking::msg::{ExecuteMsg, InstantiateMsg, QueryMsg, TransferNotice};
use gfotstaking::reach::{query_reach, reach, Reach};
use gfotstaking::state::{Ledger, RewardPolicy, StakerInfo};
use gfotstaking::store::StakerStore;

fn addr(text: &str) -> Address {
    Address::new(text.as_bytes().to_vec())
}

fn pool(policy: RewardPolicy) -> Ledger {
    instantiate(
        addr("owner"),
        InstantiateMsg {
            owner: None,
            stake_token_address: addr("stake"),
            reward_token_address: addr("reward"),
            conversion_token_address: None,
            policy,
        },
    )
}

fn time_weighted() -> RewardPolicy {
    RewardPolicy::TimeWeighted { daily_reward_amount: 1000, apy_prefix: 1, reward_interval: 100 }
}

fn snapshot() -> RewardPolicy {
    RewardPolicy::PoolSnapshot { daily_reward_rate: 1000 }
}

fn notice(sender: &str, amount: u128) -> ExecuteMsg {
    ExecuteMsg::Receive(TransferNotice { sender: addr(sender), amount, payload: Vec::new() })
}

fn entry(who: &str, staked: u128, reward: u128, last: u64) -> StakerInfo {
    StakerInfo {
        address: addr(who),
        staked_amount: staked,
        accrued_reward: reward,
        last_accrual_time: last,
    }
}

fn crowd(policy: RewardPolicy) -> Ledger {
    let mut ledger = pool(policy);
    for (i, who) in ["ann", "bob", "cyd", "dee", "eve"].iter().enumerate() {
        let n = TransferNotice { sender: addr(who), amount: 10 + i as u128, payload: Vec::new() };
        try_receive(&mut ledger, 5, &addr("stake"), &n).unwrap();
    }
    let fund = TransferNotice { sender: addr("f"), amount: 1_000_000, payload: Vec::new() };
    try_receive(&mut ledger, 5, &addr("reward"), &fund).unwrap();
    ledger
}

/// The records of the store that lie within reach, as one who keeps the records
/// elsewhere would hand them over.
fn part(store: &StakerStore, reach: &Reach) -> StakerStore {
    let mut out = StakerStore::new();
    let records = match reach {
        Reach::Nothing => Vec::new(),
        Reach::Record(a) => store.get(a).into_iter().collect(),
        Reach::Batch { start_after, limit } => {
            store.page(start_after, limit.map_or(usize::MAX, |n| n as usize))
        }
        Reach::Everything => store.to_vec(),
    };
    for r in records {
        out.put(r);
    }
    out
}

/// Writes back what the request did to the part.
fn write_back(whole: &mut StakerStore, before: &StakerStore, after: &StakerStore) {
    for old in before.to_vec() {
        if after.get(&old.address).is_none() {
            whole.delete(&old.address);
        }
    }
    for new in after.to_vec() {
        whole.put(new);
    }
}

fn same_on_part_as_on_whole(ledger: &Ledger, now: u64, sender: &str, msg: fn() -> ExecuteMsg) {
    let sender = addr(sender);
    let within = reach(&ledger.config, &sender, &msg());
    let before = Ledger {
        config: ledger.config.clone(),
        stakers: part(&ledger.stakers, &within),
    };
    let mut whole = ledger.clone();
    let mut small = before.clone();
    let on_whole = checked_execute(&mut whole, now, &sender, msg());
    let on_part = checked_execute(&mut small, now, &sender, msg());
    assert_eq!(on_part, on_whole);
    assert_eq!(small.config, whole.config);
    let mut written = ledger.stakers.clone();
    write_back(&mut written, &before.stakers, &small.stakers);
    assert_eq!(written, whole.stakers);
}

#[test]
fn reach_of_each_request_under_the_time_weighted_policy() {
    let config = crowd(time_weighted()).config;
    let bob = addr("bob");
    assert_eq!(reach(&config, &addr("stake"), &notice("ann", 5)), Reach::Record(addr("ann")));
    assert_eq!(reach(&config, &addr("stake"), &notice("ann", 0)), Reach::Nothing);
    assert_eq!(reach(&config, &addr("reward"), &notice("ann", 5)), Reach::Nothing);
    assert_eq!(reach(&config, &addr("other"), &notice("ann", 5)), Reach::Nothing);
    assert_eq!(reach(&config, &bob, &ExecuteMsg::ClaimReward {}), Reach::Record(addr("bob")));
    assert_eq!(reach(&config, &bob, &ExecuteMsg::Unstake {}), Reach::Record(addr("bob")));
    assert_eq!(
        reach(&config, &bob, &ExecuteMsg::RemoveStaker { address: addr("cyd") }),
        Reach::Record(addr("cyd"))
    );
    assert_eq!(
        reach(
            &config,
            &bob,
            &ExecuteMsg::RemoveAllStakers { start_after: Some(addr("b")), limit: Some(2) }
        ),
        Reach::Batch { start_after: Some(addr("b")), limit: Some(2) }
    );
    assert_eq!(reach(&config, &bob, &ExecuteMsg::WithdrawRewardToken {}), Reach::Nothing);
    assert_eq!(reach(&config, &bob, &ExecuteMsg::WithdrawStakeToken {}), Reach::Nothing);
    assert_eq!(
        reach(&config, &addr("owner"), &ExecuteMsg::WithdrawStakeToken {}),
        Reach::Everything
    );
    assert_eq!(reach(&config, &addr("owner"), &ExecuteMsg::WithdrawRewardToken {}), Reach::Nothing);
    assert_eq!(reach(&config, &bob, &ExecuteMsg::UpdateConfig { new_owner: None }), Reach::Nothing);
    assert_eq!(
        reach(&config, &bob, &ExecuteMsg::AddStakers { stakers: vec![entry("x", 1, 1, 1)] }),
        Reach::Nothing
    );
}

#[test]
fn reach_of_each_request_under_the_snapshot_policy() {
    let config = crowd(snapshot()).config;
    let bob = addr("bob");
    assert_eq!(reach(&config, &addr("stake"), &notice("ann", 5)), Reach::Everything);
    assert_eq!(reach(&config, &addr("stake"), &notice("ann", 0)), Reach::Nothing);
    assert_eq!(reach(&config, &addr("reward"), &notice("ann", 5)), Reach::Nothing);
    assert_eq!(reach(&config, &bob, &ExecuteMsg::ClaimReward {}), Reach::Everything);
    assert_eq!(reach(&config, &bob, &ExecuteMsg::Unstake {}), Reach::Everything);
    assert_eq!(
        reach(&config, &bob, &ExecuteMsg::RemoveStaker { address: addr("cyd") }),
        Reach::Record(addr("cyd"))
    );
}

#[test]
fn reach_of_each_query() {
    assert_eq!(query_reach(&QueryMsg::Config {}), Reach::Nothing);
    assert_eq!(query_reach(&QueryMsg::Apy {}), Reach::Nothing);
    assert_eq!(query_reach(&QueryMsg::Staker { address: addr("a") }), Reach::Record(addr("a")));
    assert_eq!(
        query_reach(&QueryMsg::ListStakers { start_after: None, limit: None }),
        Reach::Batch { start_after: None, limit: Some(10) }
    );
    assert_eq!(
        query_reach(&QueryMsg::ListStakers { start_after: Some(addr("c")), limit: Some(99) }),
        Reach::Batch { start_after: Some(addr("c")), limit: Some(30) }
    );
    assert_eq!(
        query_reach(&QueryMsg::ListStakers { start_after: None, limit: Some(7) }),
        Reach::Batch { start_after: None, limit: Some(7) }
    );
}

#[test]
fn a_request_does_to_the_whole_what_it_does_to_the_part() {
    for policy in [time_weighted(), snapshot()] {
        let ledger = crowd(policy);
        for now in [6, 250, 3 * 86400 + 1] {
            same_on_part_as_on_whole(&ledger, now, "stake", || notice("bob", 7));
            same_on_part_as_on_whole(&ledger, now, "stake", || notice("zed", 7));
            same_on_part_as_on_whole(&ledger, now, "stake", || notice("bob", 0));
            same_on_part_as_on_whole(&ledger, now, "reward", || notice("bob", 7));
            same_on_part_as_on_whole(&ledger, now, "other", || notice("bob", 7));
            same_on_part_as_on_whole(&ledger, now, "cyd", || ExecuteMsg::ClaimReward {});
            same_on_part_as_on_whole(&ledger, now, "zed", || ExecuteMsg::ClaimReward {});
            same_on_part_as_on_whole(&ledger, now, "dee", || ExecuteMsg::Unstake {});
            same_on_part_as_on_whole(&ledger, now, "zed", || ExecuteMsg::Unstake {});
            same_on_part_as_on_whole(&ledger, now, "owner", || ExecuteMsg::WithdrawStakeToken {});
            same_on_part_as_on_whole(&ledger, now, "bob", || ExecuteMsg::WithdrawStakeToken {});
            same_on_part_as_on_whole(&ledger, now, "owner", || ExecuteMsg::RemoveStaker {
                address: addr("cyd"),
            });
            same_on_part_as_on_whole(&ledger, now, "owner", || ExecuteMsg::RemoveStaker {
                address: addr("zed"),
            });
            same_on_part_as_on_whole(&ledger, now, "owner", || ExecuteMsg::RemoveAllStakers {
                start_after: Some(addr("bob")),
                limit: Some(2),
            });
            same_on_part_as_on_whole(&ledger, now, "owner", || ExecuteMsg::RemoveAllStakers {
                start_after: Some(addr("c")),
                limit: None,
            });
            same_on_part_as_on_whole(&ledger, now, "owner", || ExecuteMsg::RemoveAllStakers {
                start_after: None,
                limit: Some(0),
            });
            same_on_part_as_on_whole(&ledger, now, "owner", || ExecuteMsg::AddStakers {
                stakers: vec![entry("bob", 1, 2, 3), entry("new", 4, 5, 6), entry("bob", 7, 8, 9)],
            });
        }
    }
}

#[test]
fn a_query_reads_on_the_whole_what_it_reads_on_the_part() {
    let mut ledger = crowd(time_weighted());
    let more = (0..40).map(|i| entry(&format!("s{:02}", i), 1, 0, 0)).collect();
    execute_add_stakers(&mut ledger, &addr("owner"), more).unwrap();
    let queries: Vec<fn() -> QueryMsg> = vec![
        || QueryMsg::Config {},
        || QueryMsg::Apy {},
        || QueryMsg::Staker { address: addr("bob") },
        || QueryMsg::Staker { address: addr("zed") },
        || QueryMsg::ListStakers { start_after: None, limit: None },
        || QueryMsg::ListStakers { start_after: Some(addr("cyd")), limit: Some(3) },
        || QueryMsg::ListStakers { start_after: Some(addr("d")), limit: Some(99) },
        || QueryMsg::ListStakers { start_after: Some(addr("zz")), limit: Some(4) },
        || QueryMsg::ListStakers { start_after: None, limit: Some(0) },
    ];
    for query in queries {
        let small = Ledger {
            config: ledger.config.clone(),
            stakers: part(&ledger.stakers, &query_reach(&query())),
        };
        assert_eq!(checked_query(&small, query(), 12345), checked_query(&ledger, query(), 12345));
    }
}
