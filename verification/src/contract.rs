//! The ledger's operations.
//!
//! Each operation is defined twice: as a function on the model, which says what
//! the ledger is after the operation and what the operation reports, and as
//! executable code that is proved to do just that. An operation that is rejected
//! leaves the ledger as it was.
//!
//! The amounts are 128-bit numbers. Where an operation adds or multiplies, its
//! `requires` asks that the results fit; `checked_execute`, `checked_query` and
//! `checked_update_reward` ask nothing and find that out themselves.

use crate::accrual::{
    accrual_fits, accrue_checked, accrued, fresh_record, reward_of, stake_of,
};
use crate::address::Address;
use crate::error::ContractError;
use crate::laws::{
    balanced, law_amounts_not_negative, law_reward_held_conserved, law_stake_total_conserved,
    law_total_is_sum_of_stakes,
};
use crate::msg::{
    amount_outcome, bare_outcome, Action, ExecuteMsg, InstantiateMsg, Outcome, OutcomeView,
    QueryMsg, QueryResponse, StakerListResponse, Transfer, TransferNotice, TransferView,
};
use crate::state::{
    address_opt_view, addresses_view, stakers_view, Config, ConfigView, Ledger, LedgerView,
    PolicyView, RewardPolicy, StakerInfo, StakerView,
};
use crate::store::{
    delete, lemma_delete, lemma_delete_other, lemma_lookup_index, lemma_position, lemma_put,
    lemma_put_other, lemma_total_delete, lemma_total_put, lookup, page_of, position, put,
    sorted, total_reward, total_staked, without_batch, StakerStore,
};
use vstd::pervasive::unreached;
use vstd::prelude::*;

verus! {

/// What an operation comes to on the model: the ledger after it and what it
/// reports, or the error with which it is rejected.
pub type Step = Result<(LedgerView, OutcomeView), ContractError>;

/// What an executed operation came to: its result, with the ledger that it left.
pub open spec fn step_of(r: Result<Outcome, ContractError>, after: LedgerView) -> Step {
    match r {
        Ok(o) => Ok((after, o@)),
        Err(e) => Err(e),
    }
}

/// Whether `sender` owns the pool. A pool without owner is owned by nobody.
pub open spec fn owned_by(l: LedgerView, sender: Seq<u8>) -> bool {
    l.config.owner == Some(sender)
}

/// The record of `a`, or the one with which `a` would start at `now`.
pub open spec fn record_or_fresh(s: Seq<StakerView>, a: Seq<u8>, now: nat) -> StakerView {
    match lookup(s, a) {
        Some(r) => r,
        None => fresh_record(a, now),
    }
}

/// The owner check: passes for the owner, and for nobody else.
pub open spec fn owner_checked(l: LedgerView, sender: Seq<u8>) -> Step {
    if owned_by(l, sender) {
        Ok((l, bare_outcome(Action::CheckOwner)))
    } else {
        Err(ContractError::Unauthorized {  })
    }
}

/// Whether `user`, about to stake, enters the roster: under the pool-snapshot
/// policy a participant without a record does, unless the roster holds them
/// already from an earlier time in the pool.
pub open spec fn enters_roster(l: LedgerView, user: Seq<u8>) -> bool {
    &&& l.config.policy is PoolSnapshot
    &&& lookup(l.stakers, user) is None
    &&& !l.config.roster.contains(user)
}

/// The ledger after `user` has staked `amount` at `now`: accrual first, then the
/// amount is added to the participant's stake and to the pool's total, and the
/// participant enters the roster where `enters_roster` says so.
pub open spec fn staked(l: LedgerView, now: nat, user: Seq<u8>, amount: nat) -> LedgerView {
    let l1 = accrued(l, user, now);
    let r = record_or_fresh(l1.stakers, user, now);
    let enters = enters_roster(l1, user);
    LedgerView {
        config: ConfigView {
            pool_stake_total: l1.config.pool_stake_total + amount,
            roster: if enters {
                l1.config.roster.push(user)
            } else {
                l1.config.roster
            },
            ..l1.config
        },
        stakers: put(l1.stakers, StakerView { staked_amount: r.staked_amount + amount, ..r }),
    }
}

/// The ledger after the pool has been funded with `amount` of reward.
pub open spec fn funded(l: LedgerView, amount: nat) -> LedgerView {
    LedgerView {
        config: ConfigView { pool_reward_held: l.config.pool_reward_held + amount, ..l.config },
        ..l
    }
}

/// A notice from `token` that `user` has transferred `amount` to the pool. A
/// transfer of nothing is rejected. The stake token's notice is a stake, the
/// reward token's a funding; another token is rejected.
pub open spec fn received(
    l: LedgerView,
    now: nat,
    token: Seq<u8>,
    user: Seq<u8>,
    amount: nat,
) -> Step {
    if amount == 0 {
        Err(ContractError::InvalidInput {  })
    } else if token == l.config.stake_token_address {
        Ok((staked(l, now, user, amount), amount_outcome(Action::Stake, user, amount, None)))
    } else if token == l.config.reward_token_address {
        Ok((funded(l, amount), amount_outcome(Action::Fund, user, amount, None)))
    } else {
        Err(ContractError::UnacceptableToken {  })
    }
}

/// Whether the notice can be handled in 128 bits: for a stake, the accrual, the
/// participant's new stake and the pool's new total fit; for a funding, the
/// reward that the pool then holds.
pub open spec fn receive_fits(
    l: LedgerView,
    now: nat,
    token: Seq<u8>,
    user: Seq<u8>,
    amount: nat,
) -> bool {
    if amount == 0 {
        true
    } else if token == l.config.stake_token_address {
        let l1 = accrued(l, user, now);
        &&& accrual_fits(l, user, now)
        &&& record_or_fresh(l1.stakers, user, now).staked_amount + amount <= u128::MAX
        &&& l1.config.pool_stake_total + amount <= u128::MAX
    } else if token == l.config.reward_token_address {
        l.config.pool_reward_held + amount <= u128::MAX
    } else {
        true
    }
}

/// A claim by `sender` at `now`: accrual first. Without accrued reward the claim
/// is rejected, and so it is where the pool holds less than that reward. Otherwise
/// the pool gives up the reward, the participant's reward is zero, a record with
/// nothing staked is removed, and the reward is to be transferred to `sender`.
pub open spec fn claimed(l: LedgerView, now: nat, sender: Seq<u8>) -> Step {
    let l1 = accrued(l, sender, now);
    match lookup(l1.stakers, sender) {
        None => Err(ContractError::NoReward {  }),
        Some(r) => if r.accrued_reward == 0 {
            Err(ContractError::NoReward {  })
        } else if l1.config.pool_reward_held < r.accrued_reward {
            Err(ContractError::InsufficientPoolReward {  })
        } else {
            Ok(
                (
                    LedgerView {
                        config: ConfigView {
                            pool_reward_held: (l1.config.pool_reward_held - r.accrued_reward) as nat,
                            ..l1.config
                        },
                        stakers: if r.staked_amount == 0 {
                            delete(l1.stakers, sender)
                        } else {
                            put(l1.stakers, StakerView { accrued_reward: 0, ..r })
                        },
                    },
                    amount_outcome(
                        Action::ClaimReward,
                        sender,
                        r.accrued_reward,
                        Some(
                            TransferView {
                                token: l1.config.reward_token_address,
                                recipient: sender,
                                amount: r.accrued_reward,
                            },
                        ),
                    ),
                ),
            )
        },
    }
}

/// An unstake by `sender` at `now`: accrual first. With nothing staked it is
/// rejected, and so it is where the pool's total is less than the stake. Otherwise
/// the pool's total gives up the stake, the participant's stake is zero, a record
/// with no reward is removed, and the stake is to be transferred back to `sender`.
pub open spec fn unstaked(l: LedgerView, now: nat, sender: Seq<u8>) -> Step {
    let l1 = accrued(l, sender, now);
    match lookup(l1.stakers, sender) {
        None => Err(ContractError::NoStaked {  }),
        Some(r) => if r.staked_amount == 0 {
            Err(ContractError::NoStaked {  })
        } else if l1.config.pool_stake_total < r.staked_amount {
            Err(ContractError::InsufficientPoolStake {  })
        } else {
            Ok(
                (
                    LedgerView {
                        config: ConfigView {
                            pool_stake_total: (l1.config.pool_stake_total - r.staked_amount) as nat,
                            ..l1.config
                        },
                        stakers: if r.accrued_reward == 0 {
                            delete(l1.stakers, sender)
                        } else {
                            put(l1.stakers, StakerView { staked_amount: 0, ..r })
                        },
                    },
                    amount_outcome(
                        Action::Unstake,
                        sender,
                        r.staked_amount,
                        Some(
                            TransferView {
                                token: l1.config.stake_token_address,
                                recipient: sender,
                                amount: r.staked_amount,
                            },
                        ),
                    ),
                ),
            )
        },
    }
}

/// Checks that `sender` owns the pool.
pub fn check_owner(ledger: &Ledger, sender: &Address) -> (r: Result<Outcome, ContractError>)
    ensures
        step_of(r, ledger@) == owner_checked(ledger@, sender@),
{
    match &ledger.config.owner {
        Some(owner) => {
            if owner.same(sender) {
                Ok(Outcome::bare(Action::CheckOwner))
            } else {
                Err(ContractError::Unauthorized {  })
            }
        },
        None => Err(ContractError::Unauthorized {  }),
    }
}

/// Brings the reward of `address` up to `now`, by the ledger's policy.
pub fn update_reward(ledger: &mut Ledger, now: u64, address: &Address) -> (r: Result<
    Outcome,
    ContractError,
>)
    requires
        accrual_fits(old(ledger)@, address@, now as nat),
    ensures
        step_of(r, final(ledger)@) == Ok::<(LedgerView, OutcomeView), ContractError>(
            (accrued(old(ledger)@, address@, now as nat), bare_outcome(Action::Nothing)),
        ),
{
    let ok = accrue_checked(ledger, now, address);
    assert(ok);
    Ok(Outcome::bare(Action::Nothing))
}

/// Brings the reward of `address` up to `now`, and finds out by itself whether
/// the amounts fit in 128 bits: where they do not, there is no result and the
/// ledger is left as it was.
pub fn checked_update_reward(ledger: &mut Ledger, now: u64, address: &Address) -> (res: Option<
    Outcome,
>)
    ensures
        res is Some <==> accrual_fits(old(ledger)@, address@, now as nat),
        res is Some ==> final(ledger)@ == accrued(old(ledger)@, address@, now as nat),
        res is Some ==> res->0@ == bare_outcome(Action::Nothing),
        res is None ==> *final(ledger) == *old(ledger),
{
    let mut work = ledger.clone();
    if accrue_checked(&mut work, now, address) {
        *ledger = work;
        Some(Outcome::bare(Action::Nothing))
    } else {
        None
    }
}

/// Whether the roster holds `address`.
pub fn on_roster(roster: &Vec<Address>, address: &Address) -> (b: bool)
    ensures
        b == addresses_view(roster@).contains(address@),
{
    let ghost r = addresses_view(roster@);
    let mut i: usize = 0;
    while i < roster.len()
        invariant
            0 <= i <= roster.len(),
            r == addresses_view(roster@),
            r.len() == roster.len(),
            forall|j: int| 0 <= j < i ==> r[j] != address@,
        decreases roster.len() - i,
    {
        if roster[i].same(address) {
            assert(r[i as int] == address@);
            return true;
        }
        i = i + 1;
    }
    false
}

/// Handles a notice, and finds out by itself whether the amounts fit: where they
/// do not, there is no result. It works on a copy of the ledger and puts the
/// copy in the ledger's place once the request has succeeded.
fn receive_checked(ledger: &mut Ledger, now: u64, token: &Address, notice: &TransferNotice) -> (res:
    Option<Result<Outcome, ContractError>>)
    ensures
        res is Some <==> receive_fits(
            old(ledger)@,
            now as nat,
            token@,
            notice.sender@,
            notice.amount as nat,
        ),
        res is Some ==> step_of(res->0, final(ledger)@) == received(
            old(ledger)@,
            now as nat,
            token@,
            notice.sender@,
            notice.amount as nat,
        ),
        res is None || res->0 is Err ==> *final(ledger) == *old(ledger),
{
    let amount = notice.amount;
    if amount == 0 {
        return Some(Err(ContractError::InvalidInput {  }));
    }
    if token.same(&ledger.config.stake_token_address) {
        let mut work = ledger.clone();
        if !accrue_checked(&mut work, now, &notice.sender) {
            return None;
        }
        let ghost l1 = work@;
        let (had, rec) = match work.stakers.get(&notice.sender) {
            Some(r) => (true, r),
            None => (
                false,
                StakerInfo {
                    address: notice.sender.clone(),
                    staked_amount: 0,
                    accrued_reward: 0,
                    last_accrual_time: now,
                },
            ),
        };
        assert(rec@ == record_or_fresh(l1.stakers, notice.sender@, now as nat));
        let stake = match rec.staked_amount.checked_add(amount) {
            Some(x) => x,
            None => { return None; },
        };
        let pool = match work.config.pool_stake_total.checked_add(amount) {
            Some(x) => x,
            None => { return None; },
        };
        work.stakers.put(
            StakerInfo {
                address: rec.address,
                staked_amount: stake,
                accrued_reward: rec.accrued_reward,
                last_accrual_time: rec.last_accrual_time,
            },
        );
        work.config.pool_stake_total = pool;
        if !had {
            match work.config.policy {
                RewardPolicy::PoolSnapshot { .. } => {
                    if !on_roster(&work.config.roster, &notice.sender) {
                        work.config.roster.push(notice.sender.clone());
                        assert(addresses_view(work.config.roster@) =~= l1.config.roster.push(
                            notice.sender@,
                        ));
                    }
                },
                RewardPolicy::TimeWeighted { .. } => {},
            }
        }
        *ledger = work;
        Some(
            Ok(
                Outcome {
                    action: Action::Stake,
                    address: Some(notice.sender.clone()),
                    amount: Some(amount),
                    transfer: None,
                },
            ),
        )
    } else if token.same(&ledger.config.reward_token_address) {
        let held = match ledger.config.pool_reward_held.checked_add(amount) {
            Some(x) => x,
            None => { return None; },
        };
        ledger.config.pool_reward_held = held;
        Some(
            Ok(
                Outcome {
                    action: Action::Fund,
                    address: Some(notice.sender.clone()),
                    amount: Some(amount),
                    transfer: None,
                },
            ),
        )
    } else {
        Some(Err(ContractError::UnacceptableToken {  }))
    }
}

/// Handles a claim, and finds out by itself whether the amounts fit: where they
/// do not, there is no result. It works on a copy of the ledger and puts the
/// copy in the ledger's place once the request has succeeded.
fn claim_checked(ledger: &mut Ledger, now: u64, sender: &Address) -> (res: Option<
    Result<Outcome, ContractError>,
>)
    ensures
        res is Some <==> accrual_fits(old(ledger)@, sender@, now as nat),
        res is Some ==> step_of(res->0, final(ledger)@) == claimed(old(ledger)@, now as nat, sender@),
        res is None || res->0 is Err ==> *final(ledger) == *old(ledger),
{
    let mut work = ledger.clone();
    if !accrue_checked(&mut work, now, sender) {
        return None;
    }
    let rec = match work.stakers.get(sender) {
        Some(r) => r,
        None => { return Some(Err(ContractError::NoReward {  })); },
    };
    let reward = rec.accrued_reward;
    if reward == 0 {
        return Some(Err(ContractError::NoReward {  }));
    }
    if work.config.pool_reward_held < reward {
        return Some(Err(ContractError::InsufficientPoolReward {  }));
    }
    work.config.pool_reward_held = work.config.pool_reward_held - reward;
    if rec.staked_amount == 0 {
        work.stakers.delete(sender);
    } else {
        work.stakers.put(
            StakerInfo {
                address: rec.address,
                staked_amount: rec.staked_amount,
                accrued_reward: 0,
                last_accrual_time: rec.last_accrual_time,
            },
        );
    }
    *ledger = work;
    Some(
        Ok(
            Outcome {
                action: Action::ClaimReward,
                address: Some(sender.clone()),
                amount: Some(reward),
                transfer: Some(
                    Transfer {
                        token: ledger.config.reward_token_address.clone(),
                        recipient: sender.clone(),
                        amount: reward,
                    },
                ),
            },
        ),
    )
}

/// Handles an unstake, and finds out by itself whether the amounts fit: where they
/// do not, there is no result. It works on a copy of the ledger and puts the
/// copy in the ledger's place once the request has succeeded.
fn unstake_checked(ledger: &mut Ledger, now: u64, sender: &Address) -> (res: Option<
    Result<Outcome, ContractError>,
>)
    ensures
        res is Some <==> accrual_fits(old(ledger)@, sender@, now as nat),
        res is Some ==> step_of(res->0, final(ledger)@) == unstaked(old(ledger)@, now as nat, sender@),
        res is None || res->0 is Err ==> *final(ledger) == *old(ledger),
{
    let mut work = ledger.clone();
    if !accrue_checked(&mut work, now, sender) {
        return None;
    }
    let rec = match work.stakers.get(sender) {
        Some(r) => r,
        None => { return Some(Err(ContractError::NoStaked {  })); },
    };
    let stake = rec.staked_amount;
    if stake == 0 {
        return Some(Err(ContractError::NoStaked {  }));
    }
    if work.config.pool_stake_total < stake {
        return Some(Err(ContractError::InsufficientPoolStake {  }));
    }
    work.config.pool_stake_total = work.config.pool_stake_total - stake;
    if rec.accrued_reward == 0 {
        work.stakers.delete(sender);
    } else {
        work.stakers.put(
            StakerInfo {
                address: rec.address,
                staked_amount: 0,
                accrued_reward: rec.accrued_reward,
                last_accrual_time: rec.last_accrual_time,
            },
        );
    }
    *ledger = work;
    Some(
        Ok(
            Outcome {
                action: Action::Unstake,
                address: Some(sender.clone()),
                amount: Some(stake),
                transfer: Some(
                    Transfer {
                        token: ledger.config.stake_token_address.clone(),
                        recipient: sender.clone(),
                        amount: stake,
                    },
                ),
            },
        ),
    )
}

/// Handles a token's notice of a transfer to the pool: a stake where the stake
/// token notifies, a funding where the reward token does.
pub fn try_receive(ledger: &mut Ledger, now: u64, token: &Address, notice: &TransferNotice) -> (r:
    Result<Outcome, ContractError>)
    requires
        receive_fits(old(ledger)@, now as nat, token@, notice.sender@, notice.amount as nat),
    ensures
        step_of(r, final(ledger)@) == received(
            old(ledger)@,
            now as nat,
            token@,
            notice.sender@,
            notice.amount as nat,
        ),
        r is Err ==> *final(ledger) == *old(ledger),
        r is Ok && r->Ok_0.action == Action::Fund ==> final(ledger).config.pool_reward_held
            == old(ledger).config.pool_reward_held + notice.amount,
        r is Ok && r->Ok_0.action == Action::Stake ==> final(ledger).config.pool_stake_total
            == old(ledger).config.pool_stake_total + notice.amount,
        balanced(old(ledger)@) ==> balanced(final(ledger)@),
{
    let ghost before = ledger@;
    let ghost msg = ExecuteMsg::Receive(*notice);
    proof {
        use_type_invariant(&ledger.stakers);
    }
    let r = match receive_checked(ledger, now, token, notice) {
        Some(r) => r,
        None => unreached(),
    };
    proof {
        if r is Ok {
            law_reward_held_conserved(before, now as nat, token@, msg);
            law_stake_total_conserved(before, now as nat, token@, msg);
            if balanced(before) {
                law_total_is_sum_of_stakes(before, now as nat, token@, msg);
            }
        }
    }
    r
}

/// Pays the caller the reward that they have accrued.
pub fn try_claim_reward(ledger: &mut Ledger, now: u64, sender: &Address) -> (r: Result<
    Outcome,
    ContractError,
>)
    requires
        accrual_fits(old(ledger)@, sender@, now as nat),
    ensures
        step_of(r, final(ledger)@) == claimed(old(ledger)@, now as nat, sender@),
        r is Err ==> *final(ledger) == *old(ledger),
        r is Ok ==> {
            &&& r->Ok_0.amount is Some
            &&& r->Ok_0.amount->0 <= old(ledger).config.pool_reward_held
            &&& final(ledger).config.pool_reward_held == old(ledger).config.pool_reward_held
                - r->Ok_0.amount->0
            &&& reward_of(final(ledger)@.stakers, sender@) == 0
        },
        balanced(old(ledger)@) ==> balanced(final(ledger)@),
{
    let ghost before = ledger@;
    proof {
        use_type_invariant(&ledger.stakers);
    }
    let r = match claim_checked(ledger, now, sender) {
        Some(r) => r,
        None => unreached(),
    };
    proof {
        if r is Ok {
            law_amounts_not_negative(before, now as nat, sender@, ExecuteMsg::ClaimReward {  });
            if balanced(before) {
                law_total_is_sum_of_stakes(
                    before,
                    now as nat,
                    sender@,
                    ExecuteMsg::ClaimReward {  },
                );
            }
        }
    }
    r
}

/// Gives the caller back what they have staked.
pub fn try_unstake(ledger: &mut Ledger, now: u64, sender: &Address) -> (r: Result<
    Outcome,
    ContractError,
>)
    requires
        accrual_fits(old(ledger)@, sender@, now as nat),
    ensures
        step_of(r, final(ledger)@) == unstaked(old(ledger)@, now as nat, sender@),
        r is Err ==> *final(ledger) == *old(ledger),
        r is Ok ==> {
            &&& r->Ok_0.amount is Some
            &&& r->Ok_0.amount->0 <= old(ledger).config.pool_stake_total
            &&& final(ledger).config.pool_stake_total == old(ledger).config.pool_stake_total
                - r->Ok_0.amount->0
            &&& stake_of(final(ledger)@.stakers, sender@) == 0
        },
        balanced(old(ledger)@) ==> balanced(final(ledger)@),
{
    let ghost before = ledger@;
    proof {
        use_type_invariant(&ledger.stakers);
    }
    let r = match unstake_checked(ledger, now, sender) {
        Some(r) => r,
        None => unreached(),
    };
    proof {
        if r is Ok {
            law_amounts_not_negative(before, now as nat, sender@, ExecuteMsg::Unstake {  });
            if balanced(before) {
                law_total_is_sum_of_stakes(before, now as nat, sender@, ExecuteMsg::Unstake {  });
            }
        }
    }
    r
}

/// The ledger after the owner has withdrawn all reward that the pool holds: the
/// pool holds none, and what it held is to be transferred to the owner. The
/// participants' records are not touched.
pub open spec fn reward_withdrawn(l: LedgerView, sender: Seq<u8>) -> Step {
    if !owned_by(l, sender) {
        Err(ContractError::Unauthorized {  })
    } else {
        Ok(
            (
                LedgerView { config: ConfigView { pool_reward_held: 0, ..l.config }, ..l },
                amount_outcome(
                    Action::WithdrawReward,
                    sender,
                    l.config.pool_reward_held,
                    Some(
                        TransferView {
                            token: l.config.reward_token_address,
                            recipient: sender,
                            amount: l.config.pool_reward_held,
                        },
                    ),
                ),
            ),
        )
    }
}

/// The record without its stake.
pub open spec fn released(r: StakerView) -> StakerView {
    StakerView { staked_amount: 0, ..r }
}

/// The store after the stakes of the records of `list` have left the pool, one
/// record after the other: a record that holds reward stays without its stake,
/// a record that holds none is taken out.
pub open spec fn drained_of(s: Seq<StakerView>, list: Seq<StakerView>) -> Seq<StakerView>
    decreases list.len(),
{
    if list.len() == 0 {
        s
    } else {
        let t = drained_of(s, list.drop_last());
        let r = list.last();
        if r.accrued_reward > 0 {
            put(t, released(r))
        } else {
            delete(t, r.address)
        }
    }
}

/// The store after all stakes have left the pool.
pub open spec fn drained(s: Seq<StakerView>) -> Seq<StakerView> {
    drained_of(s, s)
}

/// The ledger after the owner has withdrawn all that is staked: the pool's
/// stake total is zero and what it was is to be transferred to the owner. The
/// stakes leave the records with it, so that the total stays the sum of the
/// stakes: a record keeps its reward and the time of its last accrual, and a
/// record without reward is taken out. Nothing is accrued first: reward that
/// has not been accrued by then is not earned on the stake that has left.
pub open spec fn stake_withdrawn(l: LedgerView, sender: Seq<u8>) -> Step {
    if !owned_by(l, sender) {
        Err(ContractError::Unauthorized {  })
    } else {
        Ok(
            (
                LedgerView {
                    config: ConfigView { pool_stake_total: 0, ..l.config },
                    stakers: drained(l.stakers),
                },
                amount_outcome(
                    Action::WithdrawStake,
                    sender,
                    l.config.pool_stake_total,
                    Some(
                        TransferView {
                            token: l.config.stake_token_address,
                            recipient: sender,
                            amount: l.config.pool_stake_total,
                        },
                    ),
                ),
            ),
        )
    }
}

/// What the store holds once the stakes of its first `k` records have left, and
/// what that does to the sums.
pub proof fn lemma_drained_of(s: Seq<StakerView>, k: int, a: Seq<u8>)
    requires
        sorted(s),
        0 <= k <= s.len(),
    ensures
        sorted(drained_of(s, s.take(k))),
        lookup(drained_of(s, s.take(k)), a) == match lookup(s, a) {
            Some(r) => if position(s, a) >= k {
                Some(r)
            } else if r.accrued_reward > 0 {
                Some(released(r))
            } else {
                None
            },
            None => None,
        },
        total_staked(drained_of(s, s.take(k))) + total_staked(s.take(k)) == total_staked(s),
        total_reward(drained_of(s, s.take(k))) == total_reward(s),
    decreases k,
{
    let f = |e: StakerView| e.staked_amount;
    let g = |e: StakerView| e.accrued_reward;
    lemma_position(s, a);
    if k == 0 {
        assert(s.take(0) =~= Seq::<StakerView>::empty());
    } else {
        let r = s[k - 1];
        let t = drained_of(s, s.take(k - 1));
        assert(s.take(k).drop_last() =~= s.take(k - 1));
        assert(s.take(k).last() == r);
        lemma_drained_of(s, k - 1, a);
        lemma_drained_of(s, k - 1, r.address);
        lemma_lookup_index(s, k - 1);
        if lookup(s, a) is Some && a != r.address {
            lemma_lookup_index(s, position(s, a));
        }
        if r.accrued_reward > 0 {
            lemma_put(t, released(r));
            lemma_total_put(t, released(r), f);
            lemma_total_put(t, released(r), g);
            if a != r.address {
                lemma_put_other(t, released(r), a);
            }
        } else {
            lemma_delete(t, r.address);
            lemma_total_delete(t, r.address, f);
            lemma_total_delete(t, r.address, g);
            if a != r.address {
                lemma_delete_other(t, r.address, a);
            }
        }
    }
}

/// Once all stakes have left the pool, the store is in order, no record holds
/// stake, every record that held reward holds it still, and every record that
/// held none is gone.
pub proof fn lemma_drained(s: Seq<StakerView>, a: Seq<u8>)
    requires
        sorted(s),
    ensures
        sorted(drained(s)),
        lookup(drained(s), a) == match lookup(s, a) {
            Some(r) => if r.accrued_reward > 0 {
                Some(released(r))
            } else {
                None
            },
            None => None,
        },
        total_staked(drained(s)) == 0,
        total_reward(drained(s)) == total_reward(s),
{
    assert(s.take(s.len() as int) =~= s);
    lemma_position(s, a);
    lemma_drained_of(s, s.len() as int, a);
}

/// The ledger after the owner has named a new owner, or none: with none, nobody
/// can administer the pool any more.
pub open spec fn config_updated(
    l: LedgerView,
    sender: Seq<u8>,
    new_owner: Option<Seq<u8>>,
) -> Step {
    if !owned_by(l, sender) {
        Err(ContractError::Unauthorized {  })
    } else {
        Ok(
            (
                LedgerView { config: ConfigView { owner: new_owner, ..l.config }, ..l },
                bare_outcome(Action::UpdateConfig),
            ),
        )
    }
}

/// The ledger after the owner has set the parameters of the time-weighted
/// policy. A pool under the pool-snapshot policy has no such parameters and
/// rejects the request.
pub open spec fn constants_updated(
    l: LedgerView,
    sender: Seq<u8>,
    daily_reward_amount: nat,
    apy_prefix: nat,
    reward_interval: nat,
) -> Step {
    if !owned_by(l, sender) {
        Err(ContractError::Unauthorized {  })
    } else if l.config.policy is PoolSnapshot {
        Err(ContractError::InvalidInput {  })
    } else {
        Ok(
            (
                LedgerView {
                    config: ConfigView {
                        policy: PolicyView::TimeWeighted {
                            daily_reward_amount,
                            apy_prefix,
                            reward_interval,
                        },
                        ..l.config
                    },
                    ..l
                },
                bare_outcome(Action::UpdateConstants),
            ),
        )
    }
}

/// The store with the records of `list` put in, one after the other: of two
/// records for one address the later stays.
pub open spec fn imported(s: Seq<StakerView>, list: Seq<StakerView>) -> Seq<StakerView>
    decreases list.len(),
{
    if list.len() == 0 {
        s
    } else {
        put(imported(s, list.drop_last()), list.last())
    }
}

/// The ledger after the owner has put records in. The pool's totals and roster
/// are not touched: it is for the owner to keep them in step.
pub open spec fn stakers_added(l: LedgerView, sender: Seq<u8>, list: Seq<StakerView>) -> Step {
    if !owned_by(l, sender) {
        Err(ContractError::Unauthorized {  })
    } else {
        Ok(
            (
                LedgerView { stakers: imported(l.stakers, list), ..l },
                bare_outcome(Action::AddStakers),
            ),
        )
    }
}

/// The ledger after the owner has removed the record of `a`, whatever it held.
pub open spec fn staker_removed(l: LedgerView, sender: Seq<u8>, a: Seq<u8>) -> Step {
    if !owned_by(l, sender) {
        Err(ContractError::Unauthorized {  })
    } else {
        Ok((LedgerView { stakers: delete(l.stakers, a), ..l }, bare_outcome(Action::RemoveStaker)))
    }
}

/// The ledger after the owner has removed the batch of records that follows the
/// cursor, in ascending order of address: with a limit, that many records at
/// most; without, all that follow the cursor. With no cursor the batch starts
/// with the first record.
pub open spec fn stakers_removed_after(
    l: LedgerView,
    sender: Seq<u8>,
    cursor: Option<Seq<u8>>,
    limit: Option<u32>,
) -> Step {
    if !owned_by(l, sender) {
        Err(ContractError::Unauthorized {  })
    } else {
        Ok(
            (
                LedgerView { stakers: without_batch(l.stakers, cursor, limit), ..l },
                bare_outcome(Action::RemoveAllStakers),
            ),
        )
    }
}

/// Putting records in keeps the store in order.
pub proof fn lemma_imported(s: Seq<StakerView>, list: Seq<StakerView>)
    requires
        sorted(s),
    ensures
        sorted(imported(s, list)),
    decreases list.len(),
{
    if list.len() > 0 {
        lemma_imported(s, list.drop_last());
        lemma_put(imported(s, list.drop_last()), list.last());
    }
}

/// Names a new owner, or none.
pub fn execute_update_config(ledger: &mut Ledger, sender: &Address, new_owner: Option<Address>) -> (r:
    Result<Outcome, ContractError>)
    ensures
        step_of(r, final(ledger)@) == config_updated(
            old(ledger)@,
            sender@,
            address_opt_view(new_owner),
        ),
        r is Err ==> *final(ledger) == *old(ledger),
{
    match check_owner(ledger, sender) {
        Err(e) => { return Err(e); },
        Ok(_) => {},
    }
    ledger.config.owner = new_owner;
    Ok(Outcome::bare(Action::UpdateConfig))
}

/// Sets the parameters of the time-weighted policy.
pub fn execute_update_constants(
    ledger: &mut Ledger,
    sender: &Address,
    daily_reward_amount: u128,
    apy_prefix: u128,
    reward_interval: u64,
) -> (r: Result<Outcome, ContractError>)
    ensures
        step_of(r, final(ledger)@) == constants_updated(
            old(ledger)@,
            sender@,
            daily_reward_amount as nat,
            apy_prefix as nat,
            reward_interval as nat,
        ),
        r is Err ==> *final(ledger) == *old(ledger),
{
    match check_owner(ledger, sender) {
        Err(e) => { return Err(e); },
        Ok(_) => {},
    }
    match ledger.config.policy {
        RewardPolicy::PoolSnapshot { .. } => Err(ContractError::InvalidInput {  }),
        RewardPolicy::TimeWeighted { .. } => {
            ledger.config.policy =
            RewardPolicy::TimeWeighted { daily_reward_amount, apy_prefix, reward_interval };
            Ok(Outcome::bare(Action::UpdateConstants))
        },
    }
}

/// Puts records in, as the owner hands them over.
pub fn execute_add_stakers(ledger: &mut Ledger, sender: &Address, stakers: Vec<StakerInfo>) -> (r:
    Result<Outcome, ContractError>)
    ensures
        step_of(r, final(ledger)@) == stakers_added(old(ledger)@, sender@, stakers_view(stakers@)),
        r is Err ==> *final(ledger) == *old(ledger),
{
    match check_owner(ledger, sender) {
        Err(e) => { return Err(e); },
        Ok(_) => {},
    }
    let ghost s = ledger.stakers@;
    let ghost list = stakers_view(stakers@);
    let mut i: usize = 0;
    while i < stakers.len()
        invariant
            0 <= i <= stakers.len(),
            list == stakers_view(stakers@),
            ledger.config == old(ledger).config,
            ledger.stakers@ == imported(s, list.take(i as int)),
        decreases stakers.len() - i,
    {
        assert(list.take(i + 1).drop_last() =~= list.take(i as int));
        ledger.stakers.put(stakers[i].clone());
        i = i + 1;
    }
    assert(list.take(list.len() as int) =~= list);
    Ok(Outcome::bare(Action::AddStakers))
}

/// Removes one record, whatever it holds.
pub fn execute_remove_staker(ledger: &mut Ledger, sender: &Address, address: &Address) -> (r:
    Result<Outcome, ContractError>)
    ensures
        step_of(r, final(ledger)@) == staker_removed(old(ledger)@, sender@, address@),
        r is Err ==> *final(ledger) == *old(ledger),
{
    match check_owner(ledger, sender) {
        Err(e) => { return Err(e); },
        Ok(_) => {},
    }
    ledger.stakers.delete(address);
    Ok(Outcome::bare(Action::RemoveStaker))
}

/// Removes the batch of records that follows the cursor: `limit` records at
/// most, or all that follow it where no limit is named.
pub fn execute_remove_all_stakers(
    ledger: &mut Ledger,
    sender: &Address,
    start_after: &Option<Address>,
    limit: Option<u32>,
) -> (r: Result<Outcome, ContractError>)
    ensures
        step_of(r, final(ledger)@) == stakers_removed_after(
            old(ledger)@,
            sender@,
            address_opt_view(*start_after),
            limit,
        ),
        r is Err ==> *final(ledger) == *old(ledger),
{
    match check_owner(ledger, sender) {
        Err(e) => { return Err(e); },
        Ok(_) => {},
    }
    ledger.stakers.delete_after(start_after, limit);
    Ok(Outcome::bare(Action::RemoveAllStakers))
}

/// Hands the owner all reward (FOT) that the pool holds.
pub fn try_withdraw_fot(ledger: &mut Ledger, sender: &Address) -> (r: Result<
    Outcome,
    ContractError,
>)
    ensures
        step_of(r, final(ledger)@) == reward_withdrawn(old(ledger)@, sender@),
        r is Err ==> *final(ledger) == *old(ledger),
{
    match check_owner(ledger, sender) {
        Err(e) => { return Err(e); },
        Ok(_) => {},
    }
    let held = ledger.config.pool_reward_held;
    ledger.config.pool_reward_held = 0;
    Ok(
        Outcome {
            action: Action::WithdrawReward,
            address: Some(sender.clone()),
            amount: Some(held),
            transfer: Some(
                Transfer {
                    token: ledger.config.reward_token_address.clone(),
                    recipient: sender.clone(),
                    amount: held,
                },
            ),
        },
    )
}

/// Hands the owner all that is staked (gFOT): the pool's stake total and, with
/// it, the stake of every record. Whatever the ledger was, the total is the sum
/// of the stakes afterwards.
pub fn try_withdraw_gfot(ledger: &mut Ledger, sender: &Address) -> (r: Result<
    Outcome,
    ContractError,
>)
    ensures
        step_of(r, final(ledger)@) == stake_withdrawn(old(ledger)@, sender@),
        r is Err ==> *final(ledger) == *old(ledger),
        r is Ok ==> balanced(final(ledger)@),
        balanced(old(ledger)@) ==> balanced(final(ledger)@),
{
    match check_owner(ledger, sender) {
        Err(e) => { return Err(e); },
        Ok(_) => {},
    }
    let ghost s = ledger.stakers@;
    proof {
        use_type_invariant(&ledger.stakers);
        lemma_drained(s, sender@);
    }
    let total = ledger.config.pool_stake_total;
    ledger.config.pool_stake_total = 0;
    let records = ledger.stakers.to_vec();
    let mut i: usize = 0;
    while i < records.len()
        invariant
            0 <= i <= records.len(),
            stakers_view(records@) == s,
            ledger.config@ == (ConfigView { pool_stake_total: 0, ..old(ledger)@.config }),
            ledger.stakers@ == drained_of(s, s.take(i as int)),
        decreases records.len() - i,
    {
        assert(s.take(i + 1).drop_last() =~= s.take(i as int));
        assert(s.take(i + 1).last() == records[i as int]@);
        if records[i].accrued_reward > 0 {
            ledger.stakers.put(
                StakerInfo {
                    address: records[i].address.clone(),
                    staked_amount: 0,
                    accrued_reward: records[i].accrued_reward,
                    last_accrual_time: records[i].last_accrual_time,
                },
            );
        } else {
            ledger.stakers.delete(&records[i].address);
        }
        i = i + 1;
    }
    assert(s.take(s.len() as int) =~= s);
    Ok(
        Outcome {
            action: Action::WithdrawStake,
            address: Some(sender.clone()),
            amount: Some(total),
            transfer: Some(
                Transfer {
                    token: ledger.config.stake_token_address.clone(),
                    recipient: sender.clone(),
                    amount: total,
                },
            ),
        },
    )
}

/// The name under which this contract stores its state.
pub const CONTRACT_NAME: &'static str = "gfotstaking";

/// The number of records on a page where the request names none.
pub const DEFAULT_LIMIT: u32 = 10;

/// The number of records on a page at most.
pub const MAX_LIMIT: u32 = 30;

/// The factor by which the yield is scaled, twice over, to stay a whole number.
pub const APY_SCALE: u128 = 10_000_000_000;

/// What the minting rate starts from.
pub const APY_RATE_BASE: u128 = 10000;

/// The ledger of a new pool: the named owner or, where none is named, the one who
/// makes the pool; empty totals; no records; no accrual yet.
pub open spec fn instantiated(sender: Seq<u8>, msg: InstantiateMsg) -> LedgerView {
    LedgerView {
        config: ConfigView {
            owner: match msg.owner {
                Some(o) => Some(o@),
                None => Some(sender),
            },
            stake_token_address: msg.stake_token_address@,
            reward_token_address: msg.reward_token_address@,
            conversion_token_address: address_opt_view(msg.conversion_token_address),
            pool_stake_total: 0,
            pool_reward_held: 0,
            policy: msg.policy@,
            last_accrual_time: None,
            roster: Seq::empty(),
        },
        stakers: Seq::empty(),
    }
}

/// Makes the ledger of a new pool.
pub fn instantiate(sender: Address, msg: InstantiateMsg) -> (ledger: Ledger)
    ensures
        ledger@ == instantiated(sender@, msg),
{
    let owner = match msg.owner {
        Some(o) => o,
        None => sender,
    };
    let ledger = Ledger {
        config: Config {
            owner: Some(owner),
            stake_token_address: msg.stake_token_address,
            reward_token_address: msg.reward_token_address,
            conversion_token_address: msg.conversion_token_address,
            pool_stake_total: 0,
            pool_reward_held: 0,
            policy: msg.policy,
            last_accrual_time: None,
            roster: Vec::new(),
        },
        stakers: StakerStore::new(),
    };
    assert(ledger@.config.roster =~= Seq::<Seq<u8>>::empty());
    ledger
}

/// Whether state that a contract named `previous_contract` has stored can be
/// taken over: only where the name is this contract's own.
pub fn migrate(previous_contract: String) -> (r: Result<Outcome, ContractError>)
    ensures
        previous_contract@ == CONTRACT_NAME@ ==> r is Ok && r->Ok_0@ == bare_outcome(
            Action::Nothing,
        ),
        previous_contract@ != CONTRACT_NAME@ ==> r == Err::<Outcome, ContractError>(
            ContractError::CannotMigrate { previous_contract },
        ),
{
    let own = CONTRACT_NAME.to_owned();
    if previous_contract == own {
        Ok(Outcome::bare(Action::Nothing))
    } else {
        Err(ContractError::CannotMigrate { previous_contract })
    }
}

/// The record that is shown for `a`: its own or, where it has none, one that
/// holds nothing.
pub open spec fn staker_shown(s: Seq<StakerView>, a: Seq<u8>) -> StakerView {
    match lookup(s, a) {
        Some(r) => r,
        None => fresh_record(a, 0),
    }
}

/// The number of records on the page that a request with `limit` gets.
pub open spec fn page_limit(limit: Option<u32>) -> nat {
    match limit {
        None => DEFAULT_LIMIT as nat,
        Some(n) => if n < MAX_LIMIT {
            n as nat
        } else {
            MAX_LIMIT as nat
        },
    }
}

/// The yearly yield of the time-weighted pool, scaled twice by `APY_SCALE`: the
/// policy's prefix over the minting rate, which grows with the token's supply,
/// and over the pool's stake total. An empty pool yields nothing, and so does a
/// pool under the pool-snapshot policy.
pub open spec fn apy(l: LedgerView, supply: nat) -> nat {
    match l.config.policy {
        PolicyView::TimeWeighted { apy_prefix, .. } => if l.config.pool_stake_total == 0 {
            0
        } else {
            apy_prefix * APY_SCALE as nat * APY_SCALE as nat / (supply / APY_SCALE as nat
                + APY_RATE_BASE as nat) / l.config.pool_stake_total
        },
        PolicyView::PoolSnapshot { .. } => 0,
    }
}

/// Whether the yield can be computed in 128 bits: the prefix, scaled twice, fits.
pub open spec fn apy_fits(l: LedgerView) -> bool {
    match l.config.policy {
        PolicyView::TimeWeighted { apy_prefix, .. } => l.config.pool_stake_total > 0
            ==> apy_prefix * APY_SCALE as nat * APY_SCALE as nat <= u128::MAX,
        PolicyView::PoolSnapshot { .. } => true,
    }
}

/// Whether the yield depends on the token's supply at all: it does not for an
/// empty pool, nor under the pool-snapshot policy.
pub open spec fn apy_reads_supply(l: LedgerView) -> bool {
    l.config.policy is TimeWeighted && l.config.pool_stake_total > 0
}

/// A copy of the configuration and the pool's totals.
pub fn query_config(ledger: &Ledger) -> (res: Config)
    ensures
        res@ == ledger@.config,
{
    ledger.config.clone()
}

/// The record of `address`. Who has no record is shown one that holds nothing.
pub fn query_staker(ledger: &Ledger, address: &Address) -> (res: StakerInfo)
    ensures
        res@ == staker_shown(ledger@.stakers, address@),
{
    match ledger.stakers.get(address) {
        Some(r) => r,
        None => StakerInfo {
            address: address.clone(),
            staked_amount: 0,
            accrued_reward: 0,
            last_accrual_time: 0,
        },
    }
}

/// One page of records in ascending order of address, from behind the cursor:
/// `DEFAULT_LIMIT` records where no limit is named, `MAX_LIMIT` at most.
pub fn query_list_stakers(ledger: &Ledger, start_after: &Option<Address>, limit: Option<u32>) -> (res:
    StakerListResponse)
    ensures
        stakers_view(res.stakers@) == page_of(
            ledger@.stakers,
            address_opt_view(*start_after),
            page_limit(limit),
        ),
{
    let n: u32 = match limit {
        None => DEFAULT_LIMIT,
        Some(n) => if n < MAX_LIMIT {
            n
        } else {
            MAX_LIMIT
        },
    };
    StakerListResponse { stakers: ledger.stakers.page(start_after, n as usize) }
}

/// The yield, where it can be computed in 128 bits.
fn apy_checked(ledger: &Ledger, reward_token_supply: u128) -> (res: Option<u128>)
    ensures
        res is Some <==> apy_fits(ledger@),
        res is Some ==> res->0 == apy(ledger@, reward_token_supply as nat),
{
    match ledger.config.policy {
        RewardPolicy::PoolSnapshot { .. } => Some(0),
        RewardPolicy::TimeWeighted { daily_reward_amount, apy_prefix, reward_interval } => {
            let pool = ledger.config.pool_stake_total;
            if pool == 0 {
                return Some(0);
            }
            let rate = reward_token_supply / APY_SCALE + APY_RATE_BASE;
            let once = match apy_prefix.checked_mul(APY_SCALE) {
                Some(x) => x,
                None => {
                    assert(apy_prefix * APY_SCALE as nat <= apy_prefix * APY_SCALE as nat
                        * APY_SCALE as nat) by (nonlinear_arith);
                    return None;
                },
            };
            let twice = match once.checked_mul(APY_SCALE) {
                Some(x) => x,
                None => { return None; },
            };
            Some(twice / rate / pool)
        },
    }
}

/// Whether the yield depends on the token's supply: where it does not, the
/// supply need not be asked for.
pub fn apy_needs_supply(ledger: &Ledger) -> (b: bool)
    ensures
        b == apy_reads_supply(ledger@),
        !b ==> forall|x: nat, y: nat| apy(ledger@, x) == apy(ledger@, y),
{
    match ledger.config.policy {
        RewardPolicy::PoolSnapshot { .. } => false,
        RewardPolicy::TimeWeighted { .. } => ledger.config.pool_stake_total > 0,
    }
}

/// The pool's yearly yield, given the circulating supply of the reward token.
pub fn query_apy(ledger: &Ledger, reward_token_supply: u128) -> (res: u128)
    requires
        apy_fits(ledger@),
    ensures
        res == apy(ledger@, reward_token_supply as nat),
{
    match apy_checked(ledger, reward_token_supply) {
        Some(x) => x,
        None => unreached(),
    }
}

/// Whether `res` answers the query `msg` on the ledger `l`.
pub open spec fn answers(l: LedgerView, msg: QueryMsg, supply: nat, res: QueryResponse) -> bool {
    match msg {
        QueryMsg::Config {  } => res matches QueryResponse::Config(c) && c@ == l.config,
        QueryMsg::Staker { address } => res matches QueryResponse::Staker(r) && r@ == staker_shown(
            l.stakers,
            address@,
        ),
        QueryMsg::ListStakers { start_after, limit } => res matches QueryResponse::ListStakers(p)
            && stakers_view(p.stakers@) == page_of(
            l.stakers,
            address_opt_view(start_after),
            page_limit(limit),
        ),
        QueryMsg::Apy {  } => res matches QueryResponse::Apy(y) && y == apy(l, supply),
    }
}

/// Whether the query can be answered in 128 bits.
pub open spec fn query_fits(l: LedgerView, msg: QueryMsg) -> bool {
    msg is Apy ==> apy_fits(l)
}

/// Answers a query, and finds out by itself whether the answer can be computed
/// in 128 bits: where it cannot, there is none. The supply is read for the yield
/// only.
pub fn checked_query(ledger: &Ledger, msg: QueryMsg, reward_token_supply: u128) -> (res: Option<
    QueryResponse,
>)
    ensures
        res is Some <==> query_fits(ledger@, msg),
        res is Some ==> answers(ledger@, msg, reward_token_supply as nat, res->0),
{
    match &msg {
        QueryMsg::Config {  } => Some(QueryResponse::Config(query_config(ledger))),
        QueryMsg::Staker { address } => Some(QueryResponse::Staker(query_staker(ledger, address))),
        QueryMsg::ListStakers { start_after, limit } => Some(
            QueryResponse::ListStakers(query_list_stakers(ledger, start_after, *limit)),
        ),
        QueryMsg::Apy {  } => match apy_checked(ledger, reward_token_supply) {
            Some(y) => Some(QueryResponse::Apy(y)),
            None => None,
        },
    }
}

/// Answers a query. The supply is read for the yield only.
pub fn query(ledger: &Ledger, msg: QueryMsg, reward_token_supply: u128) -> (res: QueryResponse)
    requires
        query_fits(ledger@, msg),
    ensures
        answers(ledger@, msg, reward_token_supply as nat, res),
{
    match checked_query(ledger, msg, reward_token_supply) {
        Some(res) => res,
        None => unreached(),
    }
}

/// What the request `msg` of `sender` at `now` comes to.
pub open spec fn executed(l: LedgerView, now: nat, sender: Seq<u8>, msg: ExecuteMsg) -> Step {
    match msg {
        ExecuteMsg::UpdateConfig { new_owner } => config_updated(
            l,
            sender,
            address_opt_view(new_owner),
        ),
        ExecuteMsg::UpdateConstants { daily_reward_amount, apy_prefix, reward_interval } => {
            constants_updated(
                l,
                sender,
                daily_reward_amount as nat,
                apy_prefix as nat,
                reward_interval as nat,
            )
        },
        ExecuteMsg::Receive(notice) => received(
            l,
            now,
            sender,
            notice.sender@,
            notice.amount as nat,
        ),
        ExecuteMsg::WithdrawRewardToken {  } => reward_withdrawn(l, sender),
        ExecuteMsg::WithdrawStakeToken {  } => stake_withdrawn(l, sender),
        ExecuteMsg::ClaimReward {  } => claimed(l, now, sender),
        ExecuteMsg::Unstake {  } => unstaked(l, now, sender),
        ExecuteMsg::AddStakers { stakers } => stakers_added(l, sender, stakers_view(stakers@)),
        ExecuteMsg::RemoveStaker { address } => staker_removed(l, sender, address@),
        ExecuteMsg::RemoveAllStakers { start_after, limit } => stakers_removed_after(
            l,
            sender,
            address_opt_view(start_after),
            limit,
        ),
    }
}

/// Whether the request can be handled in 128 bits.
pub open spec fn execute_fits(l: LedgerView, now: nat, sender: Seq<u8>, msg: ExecuteMsg) -> bool {
    match msg {
        ExecuteMsg::Receive(notice) => receive_fits(
            l,
            now,
            sender,
            notice.sender@,
            notice.amount as nat,
        ),
        ExecuteMsg::ClaimReward {  } => accrual_fits(l, sender, now),
        ExecuteMsg::Unstake {  } => accrual_fits(l, sender, now),
        _ => true,
    }
}

/// Handles a request, and finds out by itself whether the amounts fit in 128
/// bits: where they do not, there is no result and the ledger is left as it was.
pub fn checked_execute(ledger: &mut Ledger, now: u64, sender: &Address, msg: ExecuteMsg) -> (res:
    Option<Result<Outcome, ContractError>>)
    ensures
        res is Some <==> execute_fits(old(ledger)@, now as nat, sender@, msg),
        res is Some ==> step_of(res->0, final(ledger)@) == executed(
            old(ledger)@,
            now as nat,
            sender@,
            msg,
        ),
        res is None || res->0 is Err ==> *final(ledger) == *old(ledger),
        res is Some && res->0 is Ok && msg is ClaimReward ==> {
            &&& res->0->Ok_0.amount is Some
            &&& res->0->Ok_0.amount->0 <= old(ledger).config.pool_reward_held
            &&& final(ledger).config.pool_reward_held == old(ledger).config.pool_reward_held
                - res->0->Ok_0.amount->0
            &&& reward_of(final(ledger)@.stakers, sender@) == 0
        },
        res is Some && res->0 is Ok && msg is Unstake ==> {
            &&& res->0->Ok_0.amount is Some
            &&& res->0->Ok_0.amount->0 <= old(ledger).config.pool_stake_total
            &&& final(ledger).config.pool_stake_total == old(ledger).config.pool_stake_total
                - res->0->Ok_0.amount->0
            &&& stake_of(final(ledger)@.stakers, sender@) == 0
        },
{
    let ghost before = ledger@;
    let ghost request = msg;
    proof {
        use_type_invariant(&ledger.stakers);
    }
    let res = checked_dispatch(ledger, now, sender, msg);
    proof {
        if res is Some && res->0 is Ok {
            law_amounts_not_negative(before, now as nat, sender@, request);
        }
    }
    res
}

/// Hands a request to the operation that it names.
fn checked_dispatch(ledger: &mut Ledger, now: u64, sender: &Address, msg: ExecuteMsg) -> (res:
    Option<Result<Outcome, ContractError>>)
    ensures
        res is Some <==> execute_fits(old(ledger)@, now as nat, sender@, msg),
        res is Some ==> step_of(res->0, final(ledger)@) == executed(
            old(ledger)@,
            now as nat,
            sender@,
            msg,
        ),
        res is None || res->0 is Err ==> *final(ledger) == *old(ledger),
{
    match msg {
        ExecuteMsg::UpdateConfig { new_owner } => Some(
            execute_update_config(ledger, sender, new_owner),
        ),
        ExecuteMsg::UpdateConstants { daily_reward_amount, apy_prefix, reward_interval } => Some(
            execute_update_constants(
                ledger,
                sender,
                daily_reward_amount,
                apy_prefix,
                reward_interval,
            ),
        ),
        ExecuteMsg::Receive(notice) => receive_checked(ledger, now, sender, &notice),
        ExecuteMsg::WithdrawRewardToken {  } => Some(try_withdraw_fot(ledger, sender)),
        ExecuteMsg::WithdrawStakeToken {  } => Some(try_withdraw_gfot(ledger, sender)),
        ExecuteMsg::ClaimReward {  } => claim_checked(ledger, now, sender),
        ExecuteMsg::Unstake {  } => unstake_checked(ledger, now, sender),
        ExecuteMsg::AddStakers { stakers } => Some(execute_add_stakers(ledger, sender, stakers)),
        ExecuteMsg::RemoveStaker { address } => Some(
            execute_remove_staker(ledger, sender, &address),
        ),
        ExecuteMsg::RemoveAllStakers { start_after, limit } => Some(
            execute_remove_all_stakers(ledger, sender, &start_after, limit),
        ),
    }
}

/// Handles a request of `sender` at `now`.
pub fn execute(ledger: &mut Ledger, now: u64, sender: &Address, msg: ExecuteMsg) -> (r: Result<
    Outcome,
    ContractError,
>)
    requires
        execute_fits(old(ledger)@, now as nat, sender@, msg),
    ensures
        step_of(r, final(ledger)@) == executed(old(ledger)@, now as nat, sender@, msg),
        r is Err ==> *final(ledger) == *old(ledger),
{
    match checked_execute(ledger, now, sender, msg) {
        Some(r) => r,
        None => unreached(),
    }
}

} // verus!
