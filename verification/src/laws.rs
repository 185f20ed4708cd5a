//! What holds of the ledger whatever is done with it.
//!
//! The laws are stated on the model and proved from the definitions of the
//! operations. The executable operations are proved to follow those definitions,
//! so the laws hold of them too.

use crate::accrual::{
    accrual_fits, accrued, accrued_record, distributed, fresh_record, lemma_credit,
    lemma_distributed, pool_share,
    lemma_distributed_adds, lemma_distributed_keeps_stake, lemma_distribution_bound,
    periods_between, record_earns, reward_of, roster_stake, stake_of, swept,
    time_weighted_share,
};
use crate::address::{lemma_lex_asymmetric, lemma_lex_irreflexive, lemma_lex_total, lex_less};
use crate::contract::{
    claimed, executed, imported, instantiated, lemma_drained, lemma_imported, record_or_fresh,
    staked, unstaked,
};
use crate::error::ContractError;
use crate::msg::{Action, ExecuteMsg, InstantiateMsg, OutcomeView, TransferView};
use crate::state::{
    address_opt_view, stakers_view, LedgerView, PolicyView, StakerView, SECONDS_PER_DAY,
};
use crate::store::{
    batch_end, first_after, holds, lemma_batch_in_range, lemma_cut, lemma_delete,
    lemma_delete_other, lemma_lookup_index, lemma_lookup_member, lemma_position, lemma_put,
    lemma_put_other, lemma_total_bounds, lemma_total_cut, lemma_total_delete, lemma_total_put,
    lookup, position, sorted, total_reward, total_staked, without_batch,
};
use vstd::prelude::*;

verus! {

/// The pool's stake total is the sum of what the participants have staked.
pub open spec fn balanced(l: LedgerView) -> bool {
    total_staked(l.stakers) == l.config.pool_stake_total
}

/// Accrual a second time at the same `now` changes nothing: the first accrual
/// has moved the time from which periods are counted to `now`. And where the
/// first can be computed in 128 bits, so can the second, as long as the reward
/// interval is not zero.
pub proof fn law_accrual_idempotent(l: LedgerView, a: Seq<u8>, now: nat)
    requires
        l.wf(),
    ensures
        accrued(accrued(l, a, now), a, now) == accrued(l, a, now),
        accrual_fits(l, a, now) && !(l.config.policy matches PolicyView::TimeWeighted {
            reward_interval,
            ..
        } && reward_interval == 0) ==> accrual_fits(accrued(l, a, now), a, now),
{
    let l1 = accrued(l, a, now);
    match l.config.policy {
        PolicyView::TimeWeighted { daily_reward_amount, apy_prefix, reward_interval } => {
            lemma_lookup_member(l.stakers, a);
            match lookup(l.stakers, a) {
                None => {
                    lemma_put(l.stakers, fresh_record(a, now));
                },
                Some(r) => {
                    let pool = l.config.pool_stake_total;
                    if record_earns(r, now, reward_interval, pool) {
                        lemma_put(
                            l.stakers,
                            accrued_record(r, now, daily_reward_amount, reward_interval, pool),
                        );
                    }
                },
            }
        },
        PolicyView::PoolSnapshot { daily_reward_rate } => {},
    }
}

/// Accrual keeps a valid ledger valid, adds to no stake and changes no total.
pub proof fn law_accrual_keeps_stakes(l: LedgerView, a: Seq<u8>, now: nat)
    requires
        l.wf(),
    ensures
        accrued(l, a, now).wf(),
        total_staked(accrued(l, a, now).stakers) == total_staked(l.stakers),
        accrued(l, a, now).config.pool_stake_total == l.config.pool_stake_total,
        accrued(l, a, now).config.pool_reward_held == l.config.pool_reward_held,
        accrued(l, a, now).config.policy == l.config.policy,
{
    let f = |e: StakerView| e.staked_amount;
    match l.config.policy {
        PolicyView::TimeWeighted { daily_reward_amount, apy_prefix, reward_interval } => {
            lemma_lookup_member(l.stakers, a);
            match lookup(l.stakers, a) {
                None => {
                    lemma_put(l.stakers, fresh_record(a, now));
                    lemma_total_put(l.stakers, fresh_record(a, now), f);
                },
                Some(r) => {
                    let pool = l.config.pool_stake_total;
                    let r1 = accrued_record(r, now, daily_reward_amount, reward_interval, pool);
                    if record_earns(r, now, reward_interval, pool) {
                        lemma_put(l.stakers, r1);
                        lemma_total_put(l.stakers, r1, f);
                    }
                },
            }
        },
        PolicyView::PoolSnapshot { daily_reward_rate } => {
            match l.config.last_accrual_time {
                None => {},
                Some(last) => {
                    let days = periods_between(last, now, SECONDS_PER_DAY as nat);
                    let pot = daily_reward_rate * days as nat;
                    let t = roster_stake(l.stakers, l.config.roster);
                    lemma_distributed_keeps_stake(l.stakers, l.config.roster, pot, t);
                },
            }
        },
    }
}

/// What a stake does, accrual and all: it adds the amount to the staker's stake
/// and so to the sum of the stakes, leaves the sum of the rewards as accrual
/// left it, and leaves every other record as accrual left it.
pub proof fn lemma_stake_effect(l: LedgerView, now: nat, user: Seq<u8>, amount: nat, b: Seq<u8>)
    requires
        l.wf(),
    ensures
        ({
            let l1 = accrued(l, user, now);
            let l2 = staked(l, now, user, amount);
            let r = record_or_fresh(l1.stakers, user, now);
            &&& l1.wf()
            &&& l2.wf()
            &&& r.address == user
            &&& r.staked_amount == stake_of(l1.stakers, user)
            &&& r.accrued_reward == reward_of(l1.stakers, user)
            &&& lookup(l2.stakers, b) == if b == user {
                Some(StakerView { staked_amount: r.staked_amount + amount, ..r })
            } else {
                lookup(l1.stakers, b)
            }
            &&& total_staked(l2.stakers) == total_staked(l.stakers) + amount
            &&& l2.config.pool_stake_total == l.config.pool_stake_total + amount
            &&& total_reward(l2.stakers) == total_reward(l1.stakers)
        }),
{
    law_accrual_keeps_stakes(l, user, now);
    let l1 = accrued(l, user, now);
    let r = record_or_fresh(l1.stakers, user, now);
    let e = StakerView { staked_amount: r.staked_amount + amount, ..r };
    lemma_lookup_member(l1.stakers, user);
    lemma_put(l1.stakers, e);
    lemma_total_put(l1.stakers, e, |e: StakerView| e.staked_amount);
    lemma_total_put(l1.stakers, e, |e: StakerView| e.accrued_reward);
    if b != user {
        lemma_put_other(l1.stakers, e, b);
    }
}

/// What a successful claim does, accrual and all: it sets the claimant's reward
/// to zero, or takes their record out where nothing is staked, and so lowers the
/// sum of the rewards by what it pays; it leaves the sum of the stakes, and
/// every other record as accrual left it.
pub proof fn lemma_claim_effect(l: LedgerView, now: nat, sender: Seq<u8>, b: Seq<u8>)
    requires
        l.wf(),
        claimed(l, now, sender) is Ok,
    ensures
        ({
            let l1 = accrued(l, sender, now);
            let l2 = claimed(l, now, sender)->Ok_0.0;
            let r = lookup(l1.stakers, sender)->0;
            &&& l1.wf()
            &&& l2.wf()
            &&& lookup(l1.stakers, sender) == Some(r)
            &&& r.address == sender
            &&& 0 < r.accrued_reward <= l.config.pool_reward_held
            &&& claimed(l, now, sender)->Ok_0.1.amount == Some(r.accrued_reward)
            &&& lookup(l2.stakers, b) == if b != sender {
                lookup(l1.stakers, b)
            } else if r.staked_amount == 0 {
                None
            } else {
                Some(StakerView { accrued_reward: 0, ..r })
            }
            &&& total_staked(l2.stakers) == total_staked(l.stakers)
            &&& l2.config.pool_stake_total == l.config.pool_stake_total
            &&& l2.config.pool_reward_held + r.accrued_reward == l.config.pool_reward_held
            &&& total_reward(l2.stakers) + r.accrued_reward == total_reward(l1.stakers)
        }),
{
    law_accrual_keeps_stakes(l, sender, now);
    let l1 = accrued(l, sender, now);
    let r = lookup(l1.stakers, sender)->0;
    lemma_lookup_member(l1.stakers, sender);
    if r.staked_amount == 0 {
        lemma_delete(l1.stakers, sender);
        lemma_total_delete(l1.stakers, sender, |e: StakerView| e.staked_amount);
        lemma_total_delete(l1.stakers, sender, |e: StakerView| e.accrued_reward);
        if b != sender {
            lemma_delete_other(l1.stakers, sender, b);
        }
    } else {
        let e = StakerView { accrued_reward: 0, ..r };
        lemma_put(l1.stakers, e);
        lemma_total_put(l1.stakers, e, |e: StakerView| e.staked_amount);
        lemma_total_put(l1.stakers, e, |e: StakerView| e.accrued_reward);
        if b != sender {
            lemma_put_other(l1.stakers, e, b);
        }
    }
}

/// What a successful unstake does, accrual and all: it sets the participant's
/// stake to zero, or takes their record out where no reward is left, and so
/// lowers the sum of the stakes by what it returns; it leaves the sum of the
/// rewards, and every other record, as accrual left it.
pub proof fn lemma_unstake_effect(l: LedgerView, now: nat, sender: Seq<u8>, b: Seq<u8>)
    requires
        l.wf(),
        unstaked(l, now, sender) is Ok,
    ensures
        ({
            let l1 = accrued(l, sender, now);
            let l2 = unstaked(l, now, sender)->Ok_0.0;
            let r = lookup(l1.stakers, sender)->0;
            &&& l1.wf()
            &&& l2.wf()
            &&& lookup(l1.stakers, sender) == Some(r)
            &&& r.address == sender
            &&& 0 < r.staked_amount <= l.config.pool_stake_total
            &&& unstaked(l, now, sender)->Ok_0.1.amount == Some(r.staked_amount)
            &&& lookup(l2.stakers, b) == if b != sender {
                lookup(l1.stakers, b)
            } else if r.accrued_reward == 0 {
                None
            } else {
                Some(StakerView { staked_amount: 0, ..r })
            }
            &&& total_staked(l2.stakers) + r.staked_amount == total_staked(l.stakers)
            &&& l2.config.pool_stake_total + r.staked_amount == l.config.pool_stake_total
            &&& l2.config.pool_reward_held == l.config.pool_reward_held
            &&& total_reward(l2.stakers) == total_reward(l1.stakers)
        }),
{
    law_accrual_keeps_stakes(l, sender, now);
    let l1 = accrued(l, sender, now);
    let r = lookup(l1.stakers, sender)->0;
    lemma_lookup_member(l1.stakers, sender);
    if r.accrued_reward == 0 {
        lemma_delete(l1.stakers, sender);
        lemma_total_delete(l1.stakers, sender, |e: StakerView| e.staked_amount);
        lemma_total_delete(l1.stakers, sender, |e: StakerView| e.accrued_reward);
        if b != sender {
            lemma_delete_other(l1.stakers, sender, b);
        }
    } else {
        let e = StakerView { staked_amount: 0, ..r };
        lemma_put(l1.stakers, e);
        lemma_total_put(l1.stakers, e, |e: StakerView| e.staked_amount);
        lemma_total_put(l1.stakers, e, |e: StakerView| e.accrued_reward);
        if b != sender {
            lemma_put_other(l1.stakers, e, b);
        }
    }
}

/// Whether the request is one of the owner's interventions that the ledger does
/// not hold to the pool's stake total: putting records in and taking records
/// out.
pub open spec fn intervenes(msg: ExecuteMsg) -> bool {
    msg is AddStakers || msg is RemoveStaker || msg is RemoveAllStakers
}

/// Whatever a participant does, and whatever the owner does short of an
/// intervention, the pool's stake total stays the sum of the participants'
/// stakes, and a valid ledger stays valid. That holds of the owner's withdrawal
/// of all that is staked too: the stakes leave the records with the total.
pub proof fn law_total_is_sum_of_stakes(l: LedgerView, now: nat, sender: Seq<u8>, msg: ExecuteMsg)
    requires
        l.wf(),
        balanced(l),
        !intervenes(msg),
        executed(l, now, sender, msg) is Ok,
    ensures
        balanced(executed(l, now, sender, msg)->Ok_0.0),
        executed(l, now, sender, msg)->Ok_0.0.wf(),
{
    match msg {
        ExecuteMsg::Receive(notice) => {
            if sender == l.config.stake_token_address {
                lemma_stake_effect(l, now, notice.sender@, notice.amount as nat, sender);
            }
        },
        ExecuteMsg::ClaimReward {  } => {
            lemma_claim_effect(l, now, sender, sender);
        },
        ExecuteMsg::Unstake {  } => {
            lemma_unstake_effect(l, now, sender, sender);
        },
        ExecuteMsg::WithdrawStakeToken {  } => {
            lemma_drained(l.stakers, sender);
        },
        _ => {},
    }
}

/// The stake total that an intervention of the owner leaves balanced with: the
/// sum of the stakes of the records that it leaves.
pub open spec fn stakes_left(l: LedgerView, msg: ExecuteMsg) -> nat {
    match msg {
        ExecuteMsg::AddStakers { stakers } => total_staked(
            imported(l.stakers, stakers_view(stakers@)),
        ),
        ExecuteMsg::RemoveStaker { address } => (total_staked(l.stakers) - stake_of(
            l.stakers,
            address@,
        )) as nat,
        ExecuteMsg::RemoveAllStakers { start_after, limit } => total_staked(
            without_batch(l.stakers, address_opt_view(start_after), limit),
        ),
        _ => total_staked(l.stakers),
    }
}

/// An intervention of the owner keeps a valid ledger valid. It leaves the pool's
/// stake total the sum of the stakes exactly where it does not change that sum:
/// when the records that are taken out held no stake, when the stakes add up as
/// before once the records are put in.
pub proof fn law_interventions_and_balance(
    l: LedgerView,
    now: nat,
    sender: Seq<u8>,
    msg: ExecuteMsg,
)
    requires
        l.wf(),
        balanced(l),
        intervenes(msg),
        executed(l, now, sender, msg) is Ok,
    ensures
        executed(l, now, sender, msg)->Ok_0.0.wf(),
        total_staked(executed(l, now, sender, msg)->Ok_0.0.stakers) == stakes_left(l, msg),
        balanced(executed(l, now, sender, msg)->Ok_0.0) <==> stakes_left(l, msg)
            == l.config.pool_stake_total,
{
    let f = |e: StakerView| e.staked_amount;
    match msg {
        ExecuteMsg::AddStakers { stakers } => {
            lemma_imported(l.stakers, stakers_view(stakers@));
        },
        ExecuteMsg::RemoveStaker { address } => {
            lemma_delete(l.stakers, address@);
            lemma_total_delete(l.stakers, address@, f);
        },
        ExecuteMsg::RemoveAllStakers { start_after, limit } => {
            let cursor = address_opt_view(start_after);
            lemma_batch_in_range(l.stakers, cursor, limit);
            lemma_cut(
                l.stakers,
                first_after(l.stakers, cursor),
                batch_end(l.stakers, cursor, limit),
                sender,
            );
        },
        _ => {},
    }
}

/// The reward that the pool holds grows by what a funding brings and shrinks by
/// what a claim or the owner's withdrawal sends out, each time by exactly the
/// amount of the event and of the transfer that goes with it. Nothing else
/// changes it.
pub proof fn law_reward_held_conserved(l: LedgerView, now: nat, sender: Seq<u8>, msg: ExecuteMsg)
    requires
        l.wf(),
        executed(l, now, sender, msg) is Ok,
    ensures
        ({
            let (l2, out) = executed(l, now, sender, msg)->Ok_0;
            let before = l.config.pool_reward_held;
            let after = l2.config.pool_reward_held;
            match out.action {
                Action::Fund => out.amount is Some && after == before + out.amount->0,
                Action::ClaimReward | Action::WithdrawReward => {
                    &&& out.amount is Some
                    &&& after + out.amount->0 == before
                    &&& out.transfer == Some(
                        TransferView {
                            token: l.config.reward_token_address,
                            recipient: sender,
                            amount: out.amount->0,
                        },
                    )
                },
                _ => after == before,
            }
        }),
{
    match msg {
        ExecuteMsg::Receive(notice) => {
            law_accrual_keeps_stakes(l, notice.sender@, now);
        },
        ExecuteMsg::ClaimReward {  } => {
            law_accrual_keeps_stakes(l, sender, now);
            accrual_keeps_tokens(l, sender, now);
        },
        ExecuteMsg::Unstake {  } => {
            law_accrual_keeps_stakes(l, sender, now);
        },
        _ => {},
    }
}

/// Accrual does not change which tokens the pool deals in, who owns it, nor
/// who is on the roster.
proof fn accrual_keeps_tokens(l: LedgerView, a: Seq<u8>, now: nat)
    ensures
        accrued(l, a, now).config.reward_token_address == l.config.reward_token_address,
        accrued(l, a, now).config.stake_token_address == l.config.stake_token_address,
        accrued(l, a, now).config.owner == l.config.owner,
        accrued(l, a, now).config.roster == l.config.roster,
{
}

/// The pool's stake total shrinks by what an unstake or the owner's withdrawal
/// sends out, by exactly the amount of the transfer, and grows by what a stake
/// brings.
pub proof fn law_stake_total_conserved(l: LedgerView, now: nat, sender: Seq<u8>, msg: ExecuteMsg)
    requires
        l.wf(),
        executed(l, now, sender, msg) is Ok,
    ensures
        ({
            let (l2, out) = executed(l, now, sender, msg)->Ok_0;
            let before = l.config.pool_stake_total;
            let after = l2.config.pool_stake_total;
            match out.action {
                Action::Stake => out.amount is Some && after == before + out.amount->0,
                Action::Unstake | Action::WithdrawStake => {
                    &&& out.amount is Some
                    &&& after + out.amount->0 == before
                    &&& out.transfer == Some(
                        TransferView {
                            token: l.config.stake_token_address,
                            recipient: sender,
                            amount: out.amount->0,
                        },
                    )
                },
                _ => after == before,
            }
        }),
{
    match msg {
        ExecuteMsg::Receive(notice) => {
            law_accrual_keeps_stakes(l, notice.sender@, now);
        },
        ExecuteMsg::ClaimReward {  } => {
            law_accrual_keeps_stakes(l, sender, now);
        },
        ExecuteMsg::Unstake {  } => {
            law_accrual_keeps_stakes(l, sender, now);
            accrual_keeps_tokens(l, sender, now);
        },
        _ => {},
    }
}

/// A share under the time-weighted policy is at most the daily amount for each
/// period, as long as the participant's stake is part of the pool's.
pub proof fn law_share_within_schedule(daily: nat, periods: nat, staked: nat, pool: nat)
    requires
        0 < pool,
        staked <= pool,
    ensures
        time_weighted_share(daily, periods, staked, pool) <= daily * periods,
{
    let x = daily * periods;
    assert(x * staked / pool <= x) by (nonlinear_arith)
        requires
            0 < pool,
            staked <= pool,
            0 <= x,
    {
        assert(x * staked <= x * pool);
        assert((x * pool) / pool == x);
    }
}

/// The periods for which a record accrues at `now`: those between its last
/// accrual and `now`, and none while it does not earn.
pub open spec fn periods_earned(r: StakerView, now: nat, interval: nat, pool: nat) -> nat {
    if record_earns(r, now, interval, pool) {
        periods_between(r.last_accrual_time, now, interval) as nat
    } else {
        0
    }
}

/// Under the time-weighted policy, in a ledger whose stake total is the sum of
/// the stakes, one accrual adds to the rewards of all participants together no
/// more than the daily amount for each period that has passed, and takes nothing
/// away.
pub proof fn law_accrual_within_schedule(l: LedgerView, a: Seq<u8>, now: nat)
    requires
        l.wf(),
        balanced(l),
        l.config.policy is TimeWeighted,
    ensures
        total_reward(l.stakers) <= total_reward(accrued(l, a, now).stakers),
        match lookup(l.stakers, a) {
            None => total_reward(accrued(l, a, now).stakers) == total_reward(l.stakers),
            Some(r) => total_reward(accrued(l, a, now).stakers) <= total_reward(l.stakers)
                + l.config.policy->daily_reward_amount * periods_earned(
                r,
                now,
                l.config.policy->reward_interval,
                l.config.pool_stake_total,
            ),
        },
{
    let g = |e: StakerView| e.accrued_reward;
    let f = |e: StakerView| e.staked_amount;
    let daily = l.config.policy->daily_reward_amount;
    let interval = l.config.policy->reward_interval;
    let pool = l.config.pool_stake_total;
    lemma_lookup_member(l.stakers, a);
    match lookup(l.stakers, a) {
        None => {
            lemma_total_put(l.stakers, fresh_record(a, now), g);
        },
        Some(r) => {
            if record_earns(r, now, interval, pool) {
                let r1 = accrued_record(r, now, daily, interval, pool);
                lemma_total_put(l.stakers, r1, g);
                lemma_position(l.stakers, a);
                lemma_total_bounds(l.stakers, position(l.stakers, a), f);
                law_share_within_schedule(
                    daily,
                    periods_between(r.last_accrual_time, now, interval) as nat,
                    r.staked_amount,
                    pool,
                );
            }
        },
    }
}

/// The days for which the pool accrues at `now`: those between its last accrual
/// and `now`, and none before the first accrual.
pub open spec fn days_earned(l: LedgerView, now: nat) -> nat {
    match l.config.last_accrual_time {
        Some(last) => if periods_between(last, now, SECONDS_PER_DAY as nat) > 0 {
            periods_between(last, now, SECONDS_PER_DAY as nat) as nat
        } else {
            0
        },
        None => 0,
    }
}

/// Under the pool-snapshot policy one sweep adds to the rewards of all
/// participants together no more than the daily rate for each day that has
/// passed, and takes nothing away.
pub proof fn law_sweep_within_schedule(l: LedgerView, now: nat)
    requires
        l.wf(),
        l.config.policy is PoolSnapshot,
    ensures
        total_reward(l.stakers) <= total_reward(swept(l, now).stakers),
        total_reward(swept(l, now).stakers) <= total_reward(l.stakers)
            + l.config.policy->daily_reward_rate * days_earned(l, now),
{
    let rate = l.config.policy->daily_reward_rate;
    match l.config.last_accrual_time {
        None => {},
        Some(last) => {
            let days = periods_between(last, now, SECONDS_PER_DAY as nat);
            let total = roster_stake(l.stakers, l.config.roster);
            if days > 0 && total > 0 {
                let pot = rate * days as nat;
                lemma_distribution_bound(l.stakers, l.config.roster, pot, total);
                let d = total_reward(distributed(l.stakers, l.config.roster, pot, total))
                    - total_reward(l.stakers);
                assert(d <= pot) by (nonlinear_arith)
                    requires
                        d * total <= pot * total,
                        0 < total,
                ;
            } else {
                assert(0 <= rate * days_earned(l, now)) by (nonlinear_arith);
            }
        },
    }
}

/// No amount that the ledger stores goes below zero. A claim takes from the
/// reward that the pool holds exactly what it pays, which is no more than is
/// there, and leaves the claimant no reward; an unstake takes from the pool's
/// stake total exactly what it returns, which is no more than is there, and
/// leaves the participant no stake. The differences are those of whole numbers:
/// nothing wraps around.
pub proof fn law_amounts_not_negative(l: LedgerView, now: nat, sender: Seq<u8>, msg: ExecuteMsg)
    requires
        l.wf(),
        executed(l, now, sender, msg) is Ok,
    ensures
        ({
            let (l2, out) = executed(l, now, sender, msg)->Ok_0;
            &&& 0 <= l2.config.pool_stake_total
            &&& 0 <= l2.config.pool_reward_held
            &&& forall|i: int|
                0 <= i < l2.stakers.len() ==> 0 <= (#[trigger] l2.stakers[i]).staked_amount && 0
                    <= l2.stakers[i].accrued_reward
            &&& msg is ClaimReward ==> {
                &&& out.amount is Some
                &&& 0 <= l.config.pool_reward_held - out.amount->0
                &&& l2.config.pool_reward_held == l.config.pool_reward_held - out.amount->0
                &&& reward_of(l2.stakers, sender) == 0
            }
            &&& msg is Unstake ==> {
                &&& out.amount is Some
                &&& 0 <= l.config.pool_stake_total - out.amount->0
                &&& l2.config.pool_stake_total == l.config.pool_stake_total - out.amount->0
                &&& stake_of(l2.stakers, sender) == 0
            }
        }),
{
    match msg {
        ExecuteMsg::ClaimReward {  } => {
            lemma_claim_effect(l, now, sender, sender);
        },
        ExecuteMsg::Unstake {  } => {
            lemma_unstake_effect(l, now, sender, sender);
        },
        _ => {},
    }
}

/// A request with the time at which it is made and the one who makes it.
pub struct Request {
    pub now: nat,
    pub sender: Seq<u8>,
    pub msg: ExecuteMsg,
}

/// The ledger after a request: changed where the request succeeds, as it was
/// where the request is rejected.
pub open spec fn after(l: LedgerView, req: Request) -> LedgerView {
    match executed(l, req.now, req.sender, req.msg) {
        Ok((l2, _)) => l2,
        Err(_) => l,
    }
}

/// The ledger after a run of requests, one after the other.
pub open spec fn after_all(l: LedgerView, reqs: Seq<Request>) -> LedgerView
    decreases reqs.len(),
{
    if reqs.len() == 0 {
        l
    } else {
        after(after_all(l, reqs.drop_last()), reqs.last())
    }
}

/// In every ledger that is reached from a new pool without an intervention of
/// the owner, the pool's stake total is the sum of the participants' stakes.
pub proof fn law_reachable_ledgers_balanced(
    sender: Seq<u8>,
    msg: InstantiateMsg,
    reqs: Seq<Request>,
)
    requires
        forall|i: int| 0 <= i < reqs.len() ==> !intervenes(#[trigger] reqs[i].msg),
    ensures
        after_all(instantiated(sender, msg), reqs).wf(),
        balanced(after_all(instantiated(sender, msg), reqs)),
    decreases reqs.len(),
{
    if reqs.len() > 0 {
        let before = after_all(instantiated(sender, msg), reqs.drop_last());
        assert forall|i: int| 0 <= i < reqs.drop_last().len() implies !intervenes(
            #[trigger] reqs.drop_last()[i].msg,
        ) by {
            assert(reqs.drop_last()[i] == reqs[i]);
        }
        law_reachable_ledgers_balanced(sender, msg, reqs.drop_last());
        let req = reqs.last();
        assert(!intervenes(reqs[reqs.len() - 1].msg));
        if executed(before, req.now, req.sender, req.msg) is Ok {
            law_total_is_sum_of_stakes(before, req.now, req.sender, req.msg);
        }
    }
}

/// The day in which a time lies.
pub open spec fn day_of(t: nat) -> nat {
    t / (SECONDS_PER_DAY as nat)
}

/// The ledger after a run of sweeps, one after the other.
pub open spec fn swept_through(l: LedgerView, times: Seq<nat>) -> LedgerView
    decreases times.len(),
{
    if times.len() == 0 {
        l
    } else {
        swept(swept_through(l, times.drop_last()), times.last())
    }
}

/// Over any run of sweeps the pool's last accrual never moves to an earlier day,
/// and the rewards of all participants together grow by no more than the daily
/// rate for each day by which it has moved.
pub proof fn law_sweeps_within_schedule(l: LedgerView, times: Seq<nat>)
    requires
        l.wf(),
        l.config.policy is PoolSnapshot,
        l.config.last_accrual_time is Some,
    ensures
        ({
            let l2 = swept_through(l, times);
            let first = day_of(l.config.last_accrual_time->0);
            let last = day_of(l2.config.last_accrual_time->0);
            &&& l2.wf()
            &&& l2.config.policy == l.config.policy
            &&& l2.config.last_accrual_time is Some
            &&& first <= last
            &&& total_reward(l.stakers) <= total_reward(l2.stakers)
            &&& total_reward(l2.stakers) <= total_reward(l.stakers)
                + l.config.policy->daily_reward_rate * (last - first)
        }),
    decreases times.len(),
{
    let rate = l.config.policy->daily_reward_rate;
    let first = day_of(l.config.last_accrual_time->0);
    if times.len() == 0 {
        assert(rate * (first - first) == 0) by (nonlinear_arith);
    } else {
        let l1 = swept_through(l, times.drop_last());
        let now = times.last();
        law_sweeps_within_schedule(l, times.drop_last());
        law_sweep_within_schedule(l1, now);
        law_accrual_keeps_stakes(l1, Seq::<u8>::empty(), now);
        let l2 = swept(l1, now);
        let mid = day_of(l1.config.last_accrual_time->0);
        let last = day_of(l2.config.last_accrual_time->0);
        assert(days_earned(l1, now) == last - mid);
        assert(rate * (mid - first) + rate * (last - mid) == rate * (last - first))
            by (nonlinear_arith);
    }
}

/// An accrual of a record: the time, and the pool's stake total at that time.
pub struct Visit {
    pub now: nat,
    pub pool: nat,
}

/// The record after a run of accruals, one after the other.
pub open spec fn accrued_through(
    r: StakerView,
    visits: Seq<Visit>,
    daily: nat,
    interval: nat,
) -> StakerView
    decreases visits.len(),
{
    if visits.len() == 0 {
        r
    } else {
        accrued_record(
            accrued_through(r, visits.drop_last(), daily, interval),
            visits.last().now,
            daily,
            interval,
            visits.last().pool,
        )
    }
}

/// Over any run of accruals of a record whose stake is part of the pool's, the
/// record's last accrual never moves to an earlier period, and its reward grows
/// by no more than the daily amount for each period by which it has moved.
pub proof fn law_record_within_schedule(
    r: StakerView,
    visits: Seq<Visit>,
    daily: nat,
    interval: nat,
)
    requires
        forall|i: int| 0 <= i < visits.len() ==> r.staked_amount <= (#[trigger] visits[i]).pool,
    ensures
        ({
            let r2 = accrued_through(r, visits, daily, interval);
            let first = r.last_accrual_time / interval;
            let last = r2.last_accrual_time / interval;
            &&& r2.address == r.address
            &&& r2.staked_amount == r.staked_amount
            &&& first <= last
            &&& r.accrued_reward <= r2.accrued_reward
            &&& r2.accrued_reward <= r.accrued_reward + daily * (last - first)
        }),
    decreases visits.len(),
{
    let first = r.last_accrual_time / interval;
    if visits.len() == 0 {
        assert(daily * (first - first) == 0) by (nonlinear_arith);
    } else {
        let r1 = accrued_through(r, visits.drop_last(), daily, interval);
        let v = visits.last();
        assert forall|i: int| 0 <= i < visits.drop_last().len() implies r.staked_amount <= (
        #[trigger] visits.drop_last()[i]).pool by {
            assert(visits.drop_last()[i] == visits[i]);
        }
        law_record_within_schedule(r, visits.drop_last(), daily, interval);
        let mid = r1.last_accrual_time / interval;
        assert(r.staked_amount <= visits[visits.len() - 1].pool);
        if record_earns(r1, v.now, interval, v.pool) {
            let n = periods_between(r1.last_accrual_time, v.now, interval) as nat;
            law_share_within_schedule(daily, n, r1.staked_amount, v.pool);
            let last = v.now / interval;
            assert(daily * (mid - first) + daily * n == daily * (last - first))
                by (nonlinear_arith)
                requires
                    n == last - mid,
            ;
        }
    }
}

/// No record holds nothing: what has neither stake nor reward is not kept.
pub open spec fn tidy(s: Seq<StakerView>) -> bool {
    forall|a: Seq<u8>| #[trigger]
        lookup(s, a) is Some ==> lookup(s, a)->0.staked_amount > 0 || lookup(
            s,
            a,
        )->0.accrued_reward > 0
}

/// What accrual does to the record of any participant `b`: it leaves the stake,
/// takes nothing from the reward, and makes a record only for the one it is run
/// for, and only under the time-weighted policy.
pub proof fn law_accrual_only_adds(l: LedgerView, a: Seq<u8>, now: nat, b: Seq<u8>)
    requires
        l.wf(),
    ensures
        stake_of(accrued(l, a, now).stakers, b) == stake_of(l.stakers, b),
        reward_of(l.stakers, b) <= reward_of(
            accrued(l, a, now).stakers,
            b,
        ),
        lookup(l.stakers, b) is Some ==> lookup(accrued(l, a, now).stakers, b) is Some,
        b != a || l.config.policy is PoolSnapshot ==> (lookup(accrued(l, a, now).stakers, b)
            is Some ==> lookup(l.stakers, b) is Some),
{
    match l.config.policy {
        PolicyView::TimeWeighted { daily_reward_amount, apy_prefix, reward_interval } => {
            lemma_lookup_member(l.stakers, a);
            match lookup(l.stakers, a) {
                None => {
                    lemma_put(l.stakers, fresh_record(a, now));
                    if b != a {
                        lemma_put_other(l.stakers, fresh_record(a, now), b);
                    }
                },
                Some(r) => {
                    let pool = l.config.pool_stake_total;
                    let r1 = accrued_record(r, now, daily_reward_amount, reward_interval, pool);
                    if record_earns(r, now, reward_interval, pool) {
                        lemma_put(l.stakers, r1);
                        if b != a {
                            lemma_put_other(l.stakers, r1, b);
                        }
                    }
                },
            }
        },
        PolicyView::PoolSnapshot { daily_reward_rate } => {
            match l.config.last_accrual_time {
                None => {},
                Some(last) => {
                    let days = periods_between(last, now, SECONDS_PER_DAY as nat);
                    let pot = daily_reward_rate * days as nat;
                    let t = roster_stake(l.stakers, l.config.roster);
                    lemma_distributed(l.stakers, l.config.roster, pot, t, b);
                    lemma_distributed_adds(l.stakers, l.config.roster, pot, t, b);
                },
            }
        },
    }
}

/// Whether the request is one by which the owner edits the records at will:
/// putting records in and taking records out.
pub open spec fn edits_records(msg: ExecuteMsg) -> bool {
    msg is AddStakers || msg is RemoveStaker || msg is RemoveAllStakers
}

/// The ledger as the accrual that a request starts with leaves it: a stake, a
/// claim and an unstake accrue first, the other requests do not accrue.
pub open spec fn accrual_of(
    l: LedgerView,
    now: nat,
    sender: Seq<u8>,
    msg: ExecuteMsg,
) -> LedgerView {
    match msg {
        ExecuteMsg::Receive(notice) => if notice.amount != 0 && sender
            == l.config.stake_token_address {
            accrued(l, notice.sender@, now)
        } else {
            l
        },
        ExecuteMsg::ClaimReward {  } => accrued(l, sender, now),
        ExecuteMsg::Unstake {  } => accrued(l, sender, now),
        _ => l,
    }
}

/// A participant's reward grows by accrual only, and falls only by their own
/// claim, which sets it to zero and sends out what it was. Unless the owner
/// edits the records, a request leaves everyone the reward that its accrual has
/// brought them, but for the one who claims.
pub proof fn law_reward_falls_by_claim_only(
    l: LedgerView,
    now: nat,
    sender: Seq<u8>,
    msg: ExecuteMsg,
    b: Seq<u8>,
)
    requires
        l.wf(),
        !edits_records(msg),
        executed(l, now, sender, msg) is Ok,
    ensures
        ({
            let (l2, out) = executed(l, now, sender, msg)->Ok_0;
            let before = reward_of(l.stakers, b);
            let accrued = reward_of(accrual_of(l, now, sender, msg).stakers, b);
            let after = reward_of(l2.stakers, b);
            &&& before <= accrued
            &&& if msg is ClaimReward && b == sender {
                after == 0 && out.amount == Some(accrued)
            } else {
                after == accrued
            }
        }),
{
    match msg {
        ExecuteMsg::Receive(notice) => {
            if sender == l.config.stake_token_address {
                law_accrual_only_adds(l, notice.sender@, now, b);
                lemma_stake_effect(l, now, notice.sender@, notice.amount as nat, b);
            }
        },
        ExecuteMsg::ClaimReward {  } => {
            law_accrual_only_adds(l, sender, now, b);
            lemma_claim_effect(l, now, sender, b);
        },
        ExecuteMsg::Unstake {  } => {
            law_accrual_only_adds(l, sender, now, b);
            lemma_unstake_effect(l, now, sender, b);
        },
        ExecuteMsg::WithdrawStakeToken {  } => {
            lemma_drained(l.stakers, b);
        },
        _ => {},
    }
}

/// A pool without owner stays without: no request gives it one, and every
/// request that only the owner may make is rejected, whoever makes it.
pub proof fn law_no_owner_is_final(l: LedgerView, now: nat, sender: Seq<u8>, msg: ExecuteMsg)
    requires
        l.config.owner is None,
    ensures
        after(l, Request { now, sender, msg }).config.owner is None,
        msg is UpdateConfig || msg is UpdateConstants || msg is WithdrawRewardToken || msg
            is WithdrawStakeToken || msg is AddStakers || msg is RemoveStaker || msg
            is RemoveAllStakers ==> executed(l, now, sender, msg) == Err::<
            (LedgerView, OutcomeView),
            ContractError,
        >(ContractError::Unauthorized {  }),
{
    match msg {
        ExecuteMsg::Receive(notice) => {
            accrual_keeps_tokens(l, notice.sender@, now);
        },
        ExecuteMsg::ClaimReward {  } => {
            accrual_keeps_tokens(l, sender, now);
        },
        ExecuteMsg::Unstake {  } => {
            accrual_keeps_tokens(l, sender, now);
        },
        _ => {},
    }
}

/// No request leaves a record behind that holds nothing, unless the owner puts
/// such a record in.
pub proof fn law_empty_records_pruned(l: LedgerView, now: nat, sender: Seq<u8>, msg: ExecuteMsg)
    requires
        l.wf(),
        tidy(l.stakers),
        !(msg is AddStakers),
        executed(l, now, sender, msg) is Ok,
    ensures
        tidy(executed(l, now, sender, msg)->Ok_0.0.stakers),
{
    let l2 = executed(l, now, sender, msg)->Ok_0.0;
    assert forall|b: Seq<u8>| #[trigger] lookup(l2.stakers, b) is Some implies lookup(
        l2.stakers,
        b,
    )->0.staked_amount > 0 || lookup(l2.stakers, b)->0.accrued_reward > 0 by {
        assert(lookup(l.stakers, b) is Some ==> lookup(l.stakers, b)->0.staked_amount > 0
            || lookup(l.stakers, b)->0.accrued_reward > 0);
        match msg {
            ExecuteMsg::Receive(notice) => {
                if sender == l.config.stake_token_address {
                    law_accrual_only_adds(l, notice.sender@, now, b);
                    lemma_stake_effect(l, now, notice.sender@, notice.amount as nat, b);
                }
            },
            ExecuteMsg::ClaimReward {  } => {
                law_accrual_only_adds(l, sender, now, b);
                lemma_claim_effect(l, now, sender, b);
            },
            ExecuteMsg::Unstake {  } => {
                law_accrual_only_adds(l, sender, now, b);
                lemma_unstake_effect(l, now, sender, b);
            },
            ExecuteMsg::WithdrawStakeToken {  } => {
                lemma_drained(l.stakers, b);
            },
            ExecuteMsg::RemoveStaker { address } => {
                lemma_delete(l.stakers, address@);
                if b != address@ {
                    lemma_delete_other(l.stakers, address@, b);
                }
            },
            ExecuteMsg::RemoveAllStakers { start_after, limit } => {
                let cursor = address_opt_view(start_after);
                lemma_batch_in_range(l.stakers, cursor, limit);
                lemma_cut(
                    l.stakers,
                    first_after(l.stakers, cursor),
                    batch_end(l.stakers, cursor, limit),
                    b,
                );
            },
            _ => {},
        }
    }
}

/// What a request pays out as claimed reward: the amount of a successful claim.
pub open spec fn claimed_by(l: LedgerView, req: Request) -> nat {
    match executed(l, req.now, req.sender, req.msg) {
        Ok((_, out)) => if out.action == Action::ClaimReward && out.amount is Some {
            out.amount->0
        } else {
            0
        },
        Err(_) => 0,
    }
}

/// What a run of requests pays out as claimed reward.
pub open spec fn claimed_over(l: LedgerView, reqs: Seq<Request>) -> nat
    decreases reqs.len(),
{
    if reqs.len() == 0 {
        0
    } else {
        claimed_over(l, reqs.drop_last()) + claimed_by(
            after_all(l, reqs.drop_last()),
            reqs.last(),
        )
    }
}

/// Under the pool-snapshot policy one request, unless the owner puts records in
/// with it, credits no more than the daily rate for each day by which it moves
/// the pool's last accrual: what the participants hold in rewards after it,
/// with what it paid out, is within that of what they held before.
pub proof fn law_request_within_schedule(l: LedgerView, req: Request)
    requires
        l.wf(),
        l.config.policy is PoolSnapshot,
        l.config.last_accrual_time is Some,
        !(req.msg is AddStakers),
    ensures
        ({
            let l2 = after(l, req);
            let first = day_of(l.config.last_accrual_time->0);
            let last = day_of(l2.config.last_accrual_time->0);
            &&& l2.wf()
            &&& l2.config.policy == l.config.policy
            &&& l2.config.last_accrual_time is Some
            &&& first <= last
            &&& total_reward(l2.stakers) + claimed_by(l, req) <= total_reward(l.stakers)
                + l.config.policy->daily_reward_rate * (last - first)
        }),
{
    let g = |e: StakerView| e.accrued_reward;
    let rate = l.config.policy->daily_reward_rate;
    let first = day_of(l.config.last_accrual_time->0);
    let now = req.now;
    let sender = req.sender;
    assert(rate * (first - first) == 0) by (nonlinear_arith);
    if executed(l, now, sender, req.msg) is Ok {
        match req.msg {
            ExecuteMsg::Receive(notice) => {
                if notice.amount != 0 && sender == l.config.stake_token_address {
                    law_sweep_within_schedule(l, now);
                    lemma_stake_effect(l, now, notice.sender@, notice.amount as nat, sender);
                }
            },
            ExecuteMsg::ClaimReward {  } => {
                law_sweep_within_schedule(l, now);
                lemma_claim_effect(l, now, sender, sender);
            },
            ExecuteMsg::Unstake {  } => {
                law_sweep_within_schedule(l, now);
                lemma_unstake_effect(l, now, sender, sender);
            },
            ExecuteMsg::WithdrawStakeToken {  } => {
                lemma_drained(l.stakers, sender);
            },
            ExecuteMsg::RemoveStaker { address } => {
                lemma_delete(l.stakers, address@);
                lemma_total_delete(l.stakers, address@, g);
            },
            ExecuteMsg::RemoveAllStakers { start_after, limit } => {
                let cursor = address_opt_view(start_after);
                lemma_batch_in_range(l.stakers, cursor, limit);
                lemma_cut(
                    l.stakers,
                    first_after(l.stakers, cursor),
                    batch_end(l.stakers, cursor, limit),
                    sender,
                );
                lemma_total_cut(
                    l.stakers,
                    first_after(l.stakers, cursor),
                    batch_end(l.stakers, cursor, limit),
                    g,
                );
            },
            _ => {},
        }
    }
}

/// Under the pool-snapshot policy, over any run of requests by which the owner
/// puts no records in, the pool's last accrual never moves to an earlier day,
/// and all the reward that is credited in the run, paid out or not, is no more
/// than the daily rate for each day by which it has moved.
pub proof fn law_pool_within_schedule(l: LedgerView, reqs: Seq<Request>)
    requires
        l.wf(),
        l.config.policy is PoolSnapshot,
        l.config.last_accrual_time is Some,
        forall|i: int| 0 <= i < reqs.len() ==> !((#[trigger] reqs[i]).msg is AddStakers),
    ensures
        ({
            let l2 = after_all(l, reqs);
            let first = day_of(l.config.last_accrual_time->0);
            let last = day_of(l2.config.last_accrual_time->0);
            &&& l2.wf()
            &&& l2.config.policy == l.config.policy
            &&& l2.config.last_accrual_time is Some
            &&& first <= last
            &&& total_reward(l2.stakers) + claimed_over(l, reqs) <= total_reward(l.stakers)
                + l.config.policy->daily_reward_rate * (last - first)
        }),
    decreases reqs.len(),
{
    let rate = l.config.policy->daily_reward_rate;
    let first = day_of(l.config.last_accrual_time->0);
    if reqs.len() == 0 {
        assert(rate * (first - first) == 0) by (nonlinear_arith);
    } else {
        let l1 = after_all(l, reqs.drop_last());
        assert forall|i: int| 0 <= i < reqs.drop_last().len() implies !((
        #[trigger] reqs.drop_last()[i]).msg is AddStakers) by {
            assert(reqs.drop_last()[i] == reqs[i]);
        }
        law_pool_within_schedule(l, reqs.drop_last());
        assert(!(reqs[reqs.len() - 1].msg is AddStakers));
        law_request_within_schedule(l1, reqs.last());
        let l2 = after(l1, reqs.last());
        let mid = day_of(l1.config.last_accrual_time->0);
        let last = day_of(l2.config.last_accrual_time->0);
        assert(rate * (mid - first) + rate * (last - mid) == rate * (last - first))
            by (nonlinear_arith);
    }
}

/// A cursor parts the store in two: the records from `first_after` on are those
/// whose address follows the cursor, so a page that starts there starts with
/// the first such record and skips none.
pub proof fn law_cursor_parts_the_store(s: Seq<StakerView>, c: Seq<u8>, i: int)
    requires
        sorted(s),
        0 <= i < s.len(),
    ensures
        0 <= first_after(s, Some(c)) <= s.len(),
        first_after(s, Some(c)) <= i <==> lex_less(c, s[i].address),
{
    let k = position(s, c);
    lemma_position(s, c);
    lemma_lex_total(c, s[i].address);
    lemma_lex_irreflexive(c);
    if i < k {
        assert(lex_less(s[i].address, c));
        lemma_lex_asymmetric(s[i].address, c);
    } else {
        assert(!lex_less(s[i].address, c));
        if holds(s, c) {
            if i > k {
                assert(lex_less(s[k].address, s[i].address));
            }
        } else {
            if s[i].address == c {
                lemma_lookup_index(s, i);
            }
        }
    }
}

/// Where the roster names nobody twice, a split credits each entry once: a
/// participant on the roster with a record gets their part by stake, everyone
/// else gets nothing.
pub proof fn law_split_credits_each_once(
    snapshot: Seq<StakerView>,
    roster: Seq<Seq<u8>>,
    pot: nat,
    total: nat,
    b: Seq<u8>,
)
    requires
        sorted(snapshot),
        roster.no_duplicates(),
    ensures
        reward_of(distributed(snapshot, roster, pot, total), b) == reward_of(snapshot, b)
            + if roster.contains(b) && lookup(snapshot, b) is Some {
            pool_share(pot, stake_of(snapshot, b), total)
        } else {
            0
        },
    decreases roster.len(),
{
    if roster.len() > 0 {
        let front = roster.drop_last();
        let a = roster.last();
        assert forall|i: int, j: int| 0 <= i < j < front.len() implies front[i] != front[j] by {
            assert(front[i] == roster[i] && front[j] == roster[j]);
        }
        assert(!front.contains(a)) by {
            if front.contains(a) {
                let i = choose|i: int| 0 <= i < front.len() && front[i] == a;
                assert(roster[i] == roster[roster.len() - 1]);
            }
        }
        assert(roster.contains(b) <==> front.contains(b) || b == a) by {
            if front.contains(b) {
                let i = choose|i: int| 0 <= i < front.len() && front[i] == b;
                assert(roster[i] == b);
            }
            if b == a {
                assert(roster[roster.len() - 1] == b);
            }
            if roster.contains(b) {
                let i = choose|i: int| 0 <= i < roster.len() && roster[i] == b;
                if i < front.len() {
                    assert(front[i] == b);
                }
            }
        }
        law_split_credits_each_once(snapshot, front, pot, total, b);
        lemma_distributed(snapshot, front, pot, total, a);
        lemma_credit(
            distributed(snapshot, front, pot, total),
            a,
            pool_share(pot, stake_of(snapshot, a), total),
            b,
        );
    }
}

/// The roster names nobody twice, and no request makes it do so: who has been
/// on it stays on it, and who returns to the pool does not enter it again.
pub proof fn law_roster_names_each_once(l: LedgerView, now: nat, sender: Seq<u8>, msg: ExecuteMsg)
    requires
        l.config.roster.no_duplicates(),
    ensures
        after(l, Request { now, sender, msg }).config.roster.no_duplicates(),
        forall|a: Seq<u8>|
            l.config.roster.contains(a) ==> after(
                l,
                Request { now, sender, msg },
            ).config.roster.contains(a),
{
    let l2 = after(l, Request { now, sender, msg });
    match msg {
        ExecuteMsg::Receive(notice) => {
            let user = notice.sender@;
            accrual_keeps_tokens(l, user, now);
            let roster = l.config.roster;
            if l2.config.roster != roster {
                assert(l2.config.roster == roster.push(user));
                assert(!roster.contains(user));
                assert forall|i: int, j: int|
                    0 <= i < j < roster.push(user).len() implies roster.push(user)[i]
                    != roster.push(user)[j] by {
                    if j < roster.len() {
                        assert(roster[i] != roster[j]);
                    } else {
                        assert(roster.contains(roster[i]));
                    }
                }
                assert forall|a: Seq<u8>| roster.contains(a) implies roster.push(user).contains(
                    a,
                ) by {
                    let i = choose|i: int| 0 <= i < roster.len() && roster[i] == a;
                    assert(roster.push(user)[i] == a);
                }
            }
        },
        ExecuteMsg::ClaimReward {  } => {
            accrual_keeps_tokens(l, sender, now);
        },
        ExecuteMsg::Unstake {  } => {
            accrual_keeps_tokens(l, sender, now);
        },
        _ => {},
    }
}

/// In every ledger that is reached from a new pool, whatever is asked of it,
/// the roster names nobody twice.
pub proof fn law_reachable_rosters_name_each_once(
    sender: Seq<u8>,
    msg: InstantiateMsg,
    reqs: Seq<Request>,
)
    ensures
        after_all(instantiated(sender, msg), reqs).config.roster.no_duplicates(),
    decreases reqs.len(),
{
    if reqs.len() > 0 {
        law_reachable_rosters_name_each_once(sender, msg, reqs.drop_last());
        let req = reqs.last();
        law_roster_names_each_once(
            after_all(instantiated(sender, msg), reqs.drop_last()),
            req.now,
            req.sender,
            req.msg,
        );
    }
}

/// The owner's withdrawal of all that is staked leaves the pool's stake total
/// the sum of the stakes, whatever the ledger was before: both are zero. It
/// takes no reward from anyone.
pub proof fn law_withdrawal_leaves_balance(l: LedgerView, now: nat, sender: Seq<u8>, b: Seq<u8>)
    requires
        l.wf(),
        executed(l, now, sender, ExecuteMsg::WithdrawStakeToken {  }) is Ok,
    ensures
        ({
            let l2 = executed(l, now, sender, ExecuteMsg::WithdrawStakeToken {  })->Ok_0.0;
            &&& l2.wf()
            &&& balanced(l2)
            &&& l2.config.pool_stake_total == 0
            &&& stake_of(l2.stakers, b) == 0
            &&& reward_of(l2.stakers, b) == reward_of(l.stakers, b)
            &&& total_reward(l2.stakers) == total_reward(l.stakers)
        }),
{
    lemma_drained(l.stakers, b);
}

/// Where the pool's stake total is the sum of the stakes, it covers the stake of
/// everyone: no unstake is rejected for want of stake in the pool.
pub proof fn law_balanced_pool_covers_every_stake(l: LedgerView, now: nat, sender: Seq<u8>)
    requires
        l.wf(),
        balanced(l),
    ensures
        unstaked(l, now, sender) != Err::<(LedgerView, OutcomeView), ContractError>(
            ContractError::InsufficientPoolStake {  },
        ),
        stake_of(accrued(l, sender, now).stakers, sender) <= l.config.pool_stake_total,
{
    law_accrual_keeps_stakes(l, sender, now);
    let l1 = accrued(l, sender, now);
    lemma_position(l1.stakers, sender);
    if lookup(l1.stakers, sender) is Some {
        lemma_total_bounds(
            l1.stakers,
            position(l1.stakers, sender),
            |e: StakerView| e.staked_amount,
        );
    }
}

} // verus!
