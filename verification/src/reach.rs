//! What part of the store a request needs.
//!
//! Who keeps the records elsewhere need not hand over all of them with every
//! request. `reach` says which records a request reads, and the laws here say
//! that the request does to the whole store what it does to that part, once
//! the part is written back.

use crate::accrual::{accrued, accrued_record, fresh_record, record_earns};
use crate::address::Address;
use crate::contract::{
    answers, execute_fits, executed, imported, lemma_imported, page_limit, query_fits,
    DEFAULT_LIMIT, MAX_LIMIT,
};
use crate::laws::{lemma_claim_effect, lemma_stake_effect, lemma_unstake_effect};
use crate::msg::{ExecuteMsg, QueryMsg, QueryResponse};
use crate::state::{
    address_opt_view, clone_address_opt, stakers_view, Config, ConfigView, LedgerView,
    RewardPolicy, StakerView,
};
use crate::store::{
    batch_end, first_after, lemma_batch_alone, lemma_batch_in_range, lemma_cut_exact,
    lemma_delete, lemma_delete_other, lemma_lookup_member, lemma_none, lemma_put,
    lemma_put_other, lemma_single, lookup, sorted,
};
use vstd::prelude::*;

verus! {

/// The records that a request reads.
#[derive(Debug, PartialEq, Eq)]
pub enum Reach {
    /// No record.
    Nothing,
    /// The record of one address, if it has one.
    Record(Address),
    /// The records behind the cursor, in ascending order of address: with a
    /// limit that many at most, without a limit all of them.
    Batch { start_after: Option<Address>, limit: Option<u32> },
    /// Every record.
    Everything,
}

/// The model of what a request reads.
pub enum ReachView {
    Nothing,
    Record(Seq<u8>),
    Batch { start_after: Option<Seq<u8>>, limit: Option<u32> },
    Everything,
}

impl View for Reach {
    type V = ReachView;

    open spec fn view(&self) -> ReachView {
        match *self {
            Reach::Nothing => ReachView::Nothing,
            Reach::Record(a) => ReachView::Record(a@),
            Reach::Batch { start_after, limit } => ReachView::Batch {
                start_after: address_opt_view(start_after),
                limit,
            },
            Reach::Everything => ReachView::Everything,
        }
    }
}

/// The part of the store that lies within reach.
pub open spec fn within(s: Seq<StakerView>, reach: ReachView) -> Seq<StakerView> {
    match reach {
        ReachView::Nothing => Seq::empty(),
        ReachView::Record(a) => match lookup(s, a) {
            Some(r) => seq![r],
            None => Seq::empty(),
        },
        ReachView::Batch { start_after, limit } => s.subrange(
            first_after(s, start_after),
            batch_end(s, start_after, limit),
        ),
        ReachView::Everything => s,
    }
}

/// The ledger with no records but those within reach.
pub open spec fn part_of(l: LedgerView, reach: ReachView) -> LedgerView {
    LedgerView { stakers: within(l.stakers, reach), ..l }
}

/// What the whole store holds for `a` once a request has run on a part of it
/// and the part is written back: what the part then holds; nothing where the
/// part held a record and holds none any more; else what the whole store held.
pub open spec fn written_back(
    whole: Seq<StakerView>,
    part: Seq<StakerView>,
    result: Seq<StakerView>,
    a: Seq<u8>,
) -> Option<StakerView> {
    match lookup(result, a) {
        Some(r) => Some(r),
        None => if lookup(part, a) is Some {
            None
        } else {
            lookup(whole, a)
        },
    }
}

/// The records that the request `msg` of `sender` reads. Under the
/// pool-snapshot policy a stake, a claim and an unstake read every record, as
/// the sweep that they start with does; under the time-weighted policy they read
/// the record of the one they are for. The owner's withdrawal of all that is
/// staked reads every record, since every stake leaves. Putting records in
/// reads none.
pub open spec fn reach_of(config: ConfigView, sender: Seq<u8>, msg: ExecuteMsg) -> ReachView {
    match msg {
        ExecuteMsg::Receive(notice) => if notice.amount == 0 || sender
            != config.stake_token_address {
            ReachView::Nothing
        } else if config.policy is PoolSnapshot {
            ReachView::Everything
        } else {
            ReachView::Record(notice.sender@)
        },
        ExecuteMsg::ClaimReward {  } => if config.policy is PoolSnapshot {
            ReachView::Everything
        } else {
            ReachView::Record(sender)
        },
        ExecuteMsg::Unstake {  } => if config.policy is PoolSnapshot {
            ReachView::Everything
        } else {
            ReachView::Record(sender)
        },
        ExecuteMsg::WithdrawStakeToken {  } => if config.owner == Some(sender) {
            ReachView::Everything
        } else {
            ReachView::Nothing
        },
        ExecuteMsg::RemoveStaker { address } => ReachView::Record(address@),
        ExecuteMsg::RemoveAllStakers { start_after, limit } => ReachView::Batch {
            start_after: address_opt_view(start_after),
            limit,
        },
        _ => ReachView::Nothing,
    }
}

/// The records that the query `msg` reads.
pub open spec fn query_reach_of(msg: QueryMsg) -> ReachView {
    match msg {
        QueryMsg::Staker { address } => ReachView::Record(address@),
        QueryMsg::ListStakers { start_after, limit } => ReachView::Batch {
            start_after: address_opt_view(start_after),
            limit: Some(page_limit(limit) as u32),
        },
        _ => ReachView::Nothing,
    }
}

/// The records that the request `msg` of `sender` reads.
pub fn reach(config: &Config, sender: &Address, msg: &ExecuteMsg) -> (r: Reach)
    ensures
        r@ == reach_of(config@, sender@, *msg),
{
    let sweeps = match config.policy {
        RewardPolicy::PoolSnapshot { .. } => true,
        RewardPolicy::TimeWeighted { .. } => false,
    };
    match msg {
        ExecuteMsg::Receive(notice) => {
            if notice.amount == 0 || !sender.same(&config.stake_token_address) {
                Reach::Nothing
            } else if sweeps {
                Reach::Everything
            } else {
                Reach::Record(notice.sender.clone())
            }
        },
        ExecuteMsg::ClaimReward {  } => {
            if sweeps {
                Reach::Everything
            } else {
                Reach::Record(sender.clone())
            }
        },
        ExecuteMsg::Unstake {  } => {
            if sweeps {
                Reach::Everything
            } else {
                Reach::Record(sender.clone())
            }
        },
        ExecuteMsg::WithdrawStakeToken {  } => {
            let owned = match &config.owner {
                Some(owner) => owner.same(sender),
                None => false,
            };
            if owned {
                Reach::Everything
            } else {
                Reach::Nothing
            }
        },
        ExecuteMsg::RemoveStaker { address } => Reach::Record(address.clone()),
        ExecuteMsg::RemoveAllStakers { start_after, limit } => Reach::Batch {
            start_after: clone_address_opt(start_after),
            limit: *limit,
        },
        _ => Reach::Nothing,
    }
}

/// The records that the query `msg` reads.
pub fn query_reach(msg: &QueryMsg) -> (r: Reach)
    ensures
        r@ == query_reach_of(*msg),
{
    match msg {
        QueryMsg::Staker { address } => Reach::Record(address.clone()),
        QueryMsg::ListStakers { start_after, limit } => {
            let n: u32 = match limit {
                None => DEFAULT_LIMIT,
                Some(n) => if *n < MAX_LIMIT {
                    *n
                } else {
                    MAX_LIMIT
                },
            };
            Reach::Batch { start_after: clone_address_opt(start_after), limit: Some(n) }
        },
        _ => Reach::Nothing,
    }
}

/// The record that time-weighted accrual at `now` leaves for `a`, given the
/// record that `a` had, if any.
pub open spec fn accrual_at(
    config: ConfigView,
    prior: Option<StakerView>,
    a: Seq<u8>,
    now: nat,
) -> StakerView {
    match prior {
        None => fresh_record(a, now),
        Some(r) => accrued_record(
            r,
            now,
            config.policy->daily_reward_amount,
            config.policy->reward_interval,
            config.pool_stake_total,
        ),
    }
}

/// Time-weighted accrual reads and writes one record: that of the one it is run
/// for. What it leaves there follows from the configuration and from what stood
/// there, and every other record stays as it was.
pub proof fn lemma_accrual_local(l: LedgerView, a: Seq<u8>, now: nat, b: Seq<u8>)
    requires
        l.wf(),
        l.config.policy is TimeWeighted,
    ensures
        accrued(l, a, now).wf(),
        accrued(l, a, now).config == l.config,
        lookup(accrued(l, a, now).stakers, b) == if b == a {
            Some(accrual_at(l.config, lookup(l.stakers, a), a, now))
        } else {
            lookup(l.stakers, b)
        },
{
    lemma_lookup_member(l.stakers, a);
    match lookup(l.stakers, a) {
        None => {
            lemma_put(l.stakers, fresh_record(a, now));
            if b != a {
                lemma_put_other(l.stakers, fresh_record(a, now), b);
            }
        },
        Some(r) => {
            let r1 = accrual_at(l.config, Some(r), a, now);
            if record_earns(
                r,
                now,
                l.config.policy->reward_interval,
                l.config.pool_stake_total,
            ) {
                lemma_put(l.stakers, r1);
                if b != a {
                    lemma_put_other(l.stakers, r1, b);
                }
            }
        },
    }
}

/// Records that are put in stand in the store whatever stood there, and what
/// stood there for other addresses stays.
pub proof fn lemma_imported_lookup(s: Seq<StakerView>, list: Seq<StakerView>, a: Seq<u8>)
    requires
        sorted(s),
    ensures
        lookup(imported(s, list), a) == match lookup(
            imported(Seq::<StakerView>::empty(), list),
            a,
        ) {
            Some(r) => Some(r),
            None => lookup(s, a),
        },
    decreases list.len(),
{
    let none = Seq::<StakerView>::empty();
    lemma_none(a);
    if list.len() > 0 {
        let front = list.drop_last();
        lemma_imported_lookup(s, front, a);
        lemma_imported(s, front);
        lemma_imported(none, front);
        lemma_put(imported(s, front), list.last());
        lemma_put(imported(none, front), list.last());
        if a != list.last().address {
            lemma_put_other(imported(s, front), list.last(), a);
            lemma_put_other(imported(none, front), list.last(), a);
        }
    }
}

/// What the part of the store within reach holds for an address.
pub proof fn lemma_within(s: Seq<StakerView>, reach: ReachView, a: Seq<u8>)
    requires
        sorted(s),
    ensures
        sorted(within(s, reach)),
        reach is Nothing ==> lookup(within(s, reach), a) is None,
        reach is Everything ==> within(s, reach) == s,
        reach matches ReachView::Record(x) ==> lookup(within(s, reach), a) == if a == x {
            lookup(s, a)
        } else {
            None
        },
{
    match reach {
        ReachView::Nothing => {
            lemma_none(a);
        },
        ReachView::Record(x) => {
            lemma_lookup_member(s, x);
            match lookup(s, x) {
                Some(r) => {
                    lemma_single(r, a);
                },
                None => {
                    lemma_none(a);
                },
            }
        },
        ReachView::Batch { start_after, limit } => {
            lemma_batch_alone(s, start_after, limit);
        },
        ReachView::Everything => {},
    }
}

/// A request does to the whole store what it does to the part within its
/// reach: run on a ledger that holds no records but those, it is rejected or
/// succeeds as on the whole ledger, with the same error, the same report and
/// the same configuration, it fits in 128 bits where it does on the whole, and
/// once the part is written back every address has the record that the request
/// leaves it on the whole ledger.
pub proof fn law_request_within_reach(
    l: LedgerView,
    now: nat,
    sender: Seq<u8>,
    msg: ExecuteMsg,
    a: Seq<u8>,
)
    requires
        l.wf(),
    ensures
        ({
            let part = part_of(l, reach_of(l.config, sender, msg));
            &&& part.wf()
            &&& execute_fits(part, now, sender, msg) == execute_fits(l, now, sender, msg)
            &&& match (executed(l, now, sender, msg), executed(part, now, sender, msg)) {
                (Ok((whole_after, out)), Ok((part_after, part_out))) => {
                    &&& part_after.config == whole_after.config
                    &&& part_out == out
                    &&& lookup(whole_after.stakers, a) == written_back(
                        l.stakers,
                        part.stakers,
                        part_after.stakers,
                        a,
                    )
                },
                (Err(e), Err(part_e)) => part_e == e,
                _ => false,
            }
        }),
{
    let reach = reach_of(l.config, sender, msg);
    let part = part_of(l, reach);
    lemma_within(l.stakers, reach, a);
    match msg {
        ExecuteMsg::Receive(notice) => {
            let user = notice.sender@;
            if reach is Record {
                lemma_within(l.stakers, reach, user);
                lemma_accrual_local(l, user, now, a);
                lemma_accrual_local(l, user, now, user);
                lemma_accrual_local(part, user, now, a);
                lemma_accrual_local(part, user, now, user);
                lemma_stake_effect(l, now, user, notice.amount as nat, a);
                lemma_stake_effect(part, now, user, notice.amount as nat, a);
            }
        },
        ExecuteMsg::ClaimReward {  } => {
            if reach is Record {
                lemma_within(l.stakers, reach, sender);
                lemma_accrual_local(l, sender, now, a);
                lemma_accrual_local(l, sender, now, sender);
                lemma_accrual_local(part, sender, now, a);
                lemma_accrual_local(part, sender, now, sender);
                if executed(l, now, sender, msg) is Ok {
                    lemma_claim_effect(l, now, sender, a);
                    lemma_claim_effect(part, now, sender, a);
                }
            }
        },
        ExecuteMsg::Unstake {  } => {
            if reach is Record {
                lemma_within(l.stakers, reach, sender);
                lemma_accrual_local(l, sender, now, a);
                lemma_accrual_local(l, sender, now, sender);
                lemma_accrual_local(part, sender, now, a);
                lemma_accrual_local(part, sender, now, sender);
                if executed(l, now, sender, msg) is Ok {
                    lemma_unstake_effect(l, now, sender, a);
                    lemma_unstake_effect(part, now, sender, a);
                }
            }
        },
        ExecuteMsg::AddStakers { stakers } => {
            lemma_imported_lookup(l.stakers, stakers_view(stakers@), a);
        },
        ExecuteMsg::RemoveStaker { address } => {
            lemma_within(l.stakers, reach, address@);
            lemma_delete(l.stakers, address@);
            lemma_delete(part.stakers, address@);
            if a != address@ {
                lemma_delete_other(l.stakers, address@, a);
                lemma_delete_other(part.stakers, address@, a);
            }
        },
        ExecuteMsg::RemoveAllStakers { start_after, limit } => {
            let cursor = address_opt_view(start_after);
            lemma_batch_in_range(l.stakers, cursor, limit);
            lemma_batch_alone(l.stakers, cursor, limit);
            lemma_cut_exact(
                l.stakers,
                first_after(l.stakers, cursor),
                batch_end(l.stakers, cursor, limit),
                a,
            );
            let run = part.stakers;
            assert(run.take(0) + run.skip(run.len() as int) =~= Seq::<StakerView>::empty());
            lemma_none(a);
        },
        _ => {},
    }
}

/// A query reads on the whole store what it reads on the part within its
/// reach: what answers it there answers it here.
pub proof fn law_query_within_reach(l: LedgerView, msg: QueryMsg, supply: nat, res: QueryResponse)
    requires
        l.wf(),
    ensures
        part_of(l, query_reach_of(msg)).wf(),
        query_fits(part_of(l, query_reach_of(msg)), msg) == query_fits(l, msg),
        answers(part_of(l, query_reach_of(msg)), msg, supply, res) == answers(l, msg, supply, res),
{
    let reach = query_reach_of(msg);
    match msg {
        QueryMsg::Staker { address } => {
            lemma_within(l.stakers, reach, address@);
        },
        QueryMsg::ListStakers { start_after, limit } => {
            let cursor = address_opt_view(start_after);
            let n = Some(page_limit(limit) as u32);
            lemma_batch_in_range(l.stakers, cursor, n);
            lemma_batch_alone(l.stakers, cursor, n);
            let run = part_of(l, reach).stakers;
            assert(run.subrange(0, run.len() as int) =~= run);
        },
        _ => {
            lemma_within(l.stakers, reach, Seq::<u8>::empty());
        },
    }
}

} // verus!
