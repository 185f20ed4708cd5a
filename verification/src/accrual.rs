//! The accrual engine: how elapsed time becomes reward.
//!
//! Under the time-weighted policy a participant accrues alone, for the whole
//! reward intervals since their own last accrual. Under the pool-snapshot policy
//! the pool accrues as a whole, for the whole days since its last accrual, and
//! splits each day's rate among everyone on the roster. Either way a share is a
//! quotient rounded down; what rounding leaves over is not paid out later.

use crate::address::Address;
use crate::laws::{
    balanced, days_earned, law_accrual_keeps_stakes, law_accrual_within_schedule,
    law_sweep_within_schedule, periods_earned,
};
use crate::state::{
    addresses_view, ConfigView, Ledger, LedgerView, PolicyView, RewardPolicy, StakerInfo,
    StakerView, SECONDS_PER_DAY,
};
use crate::store::{
    lemma_lookup_member, lemma_put, lemma_put_other, lemma_total_put, lookup, put, sorted,
    total_reward, total_staked, StakerStore,
};
use vstd::prelude::*;

verus! {

/// The number of period boundaries between `last` and `now`: positive once
/// `now` lies in a later period than `last`, whatever the seconds between them.
pub open spec fn periods_between(last: nat, now: nat, period: nat) -> int {
    (now / period) - (last / period)
}

/// What a participant earns under the time-weighted policy: the daily amount for
/// each period, by their part of the pool, rounded down.
pub open spec fn time_weighted_share(daily: nat, periods: nat, staked: nat, pool: nat) -> nat {
    daily * periods * staked / pool
}

/// Whether the record earns anything at `now`: the pool and the record hold
/// stake, and a period boundary lies behind the record's last accrual.
pub open spec fn record_earns(r: StakerView, now: nat, interval: nat, pool: nat) -> bool {
    pool > 0 && r.staked_amount > 0 && periods_between(r.last_accrual_time, now, interval) > 0
}

/// The record after accrual at `now`. Where it earns, the share is added and the
/// record's time moves to `now`; where it does not, nothing changes.
pub open spec fn accrued_record(
    r: StakerView,
    now: nat,
    daily: nat,
    interval: nat,
    pool: nat,
) -> StakerView {
    if record_earns(r, now, interval, pool) {
        StakerView {
            accrued_reward: r.accrued_reward + time_weighted_share(
                daily,
                periods_between(r.last_accrual_time, now, interval) as nat,
                r.staked_amount,
                pool,
            ),
            last_accrual_time: now,
            ..r
        }
    } else {
        r
    }
}

/// The record with which a participant starts: nothing staked, nothing earned,
/// first seen at `now`.
pub open spec fn fresh_record(a: Seq<u8>, now: nat) -> StakerView {
    StakerView { address: a, staked_amount: 0, accrued_reward: 0, last_accrual_time: now }
}

/// The ledger after time-weighted accrual for `a` at `now`. A participant without
/// a record gets a fresh one; one with a record gets it accrued. A ledger under
/// the other policy is left as it is.
pub open spec fn accrued_time_weighted(l: LedgerView, a: Seq<u8>, now: nat) -> LedgerView {
    match l.config.policy {
        PolicyView::TimeWeighted { daily_reward_amount, apy_prefix, reward_interval } => {
            match lookup(l.stakers, a) {
                None => LedgerView { stakers: put(l.stakers, fresh_record(a, now)), ..l },
                Some(r) => if record_earns(r, now, reward_interval, l.config.pool_stake_total) {
                    LedgerView {
                        stakers: put(
                            l.stakers,
                            accrued_record(
                                r,
                                now,
                                daily_reward_amount,
                                reward_interval,
                                l.config.pool_stake_total,
                            ),
                        ),
                        ..l
                    }
                } else {
                    l
                },
            }
        },
        PolicyView::PoolSnapshot { .. } => l,
    }
}

/// Whether the accrual of the record can be computed in 128 bits: the interval is
/// not zero, and where the record earns, the product of daily amount, periods and
/// stake fits, and so does the reward with the share added.
pub open spec fn record_accrual_fits(
    r: StakerView,
    now: nat,
    daily: nat,
    interval: nat,
    pool: nat,
) -> bool {
    &&& interval > 0
    &&& record_earns(r, now, interval, pool) ==> {
        let n = periods_between(r.last_accrual_time, now, interval) as nat;
        &&& daily * n * r.staked_amount <= u128::MAX
        &&& r.accrued_reward + time_weighted_share(daily, n, r.staked_amount, pool) <= u128::MAX
    }
}

/// Whether time-weighted accrual for `a` at `now` can be computed in 128 bits.
pub open spec fn time_weighted_fits(l: LedgerView, a: Seq<u8>, now: nat) -> bool {
    match l.config.policy {
        PolicyView::TimeWeighted { daily_reward_amount, apy_prefix, reward_interval } => {
            match lookup(l.stakers, a) {
                None => true,
                Some(r) => record_accrual_fits(
                    r,
                    now,
                    daily_reward_amount,
                    reward_interval,
                    l.config.pool_stake_total,
                ),
            }
        },
        PolicyView::PoolSnapshot { .. } => true,
    }
}

/// A product of three factors bounds the product of the first two when the
/// third is positive.
proof fn lemma_product_prefix(x: nat, y: nat, z: nat)
    requires
        z > 0,
    ensures
        x * y <= x * y * z,
{
    assert(x * y <= x * y * z) by (nonlinear_arith)
        requires
            z > 0,
            x >= 0,
            y >= 0,
    ;
}

/// Time-weighted accrual that finds out by itself whether the amounts fit. Where
/// they do not, it answers `false` and the ledger is not to be used further.
pub(crate) fn accrue_time_weighted_checked(ledger: &mut Ledger, now: u64, address: &Address) -> (ok:
    bool)
    ensures
        ok == time_weighted_fits(old(ledger)@, address@, now as nat),
        ok ==> final(ledger)@ == accrued_time_weighted(old(ledger)@, address@, now as nat),
        !ok ==> *final(ledger) == *old(ledger),
{
    match ledger.config.policy {
        RewardPolicy::TimeWeighted { daily_reward_amount, apy_prefix, reward_interval } => {
            match ledger.stakers.get(address) {
                None => {
                    let fresh = StakerInfo {
                        address: address.clone(),
                        staked_amount: 0,
                        accrued_reward: 0,
                        last_accrual_time: now,
                    };
                    ledger.stakers.put(fresh);
                    true
                },
                Some(rec) => {
                    if reward_interval == 0 {
                        return false;
                    }
                    let pool = ledger.config.pool_stake_total;
                    let now_period = now / reward_interval;
                    let last_period = rec.last_accrual_time / reward_interval;
                    if pool > 0 && rec.staked_amount > 0 && now_period > last_period {
                        let periods: u64 = now_period - last_period;
                        let ghost n = periods as nat;
                        let ghost daily = daily_reward_amount as nat;
                        let ghost staked = rec.staked_amount as nat;
                        proof {
                            lemma_product_prefix(daily, n, staked);
                        }
                        let by_periods = match daily_reward_amount.checked_mul(periods as u128) {
                            Some(p) => p,
                            None => { return false; },
                        };
                        let by_stake = match by_periods.checked_mul(rec.staked_amount) {
                            Some(p) => p,
                            None => { return false; },
                        };
                        let share = by_stake / pool;
                        assert(share == time_weighted_share(daily, n, staked, pool as nat));
                        let reward = match rec.accrued_reward.checked_add(share) {
                            Some(r) => r,
                            None => { return false; },
                        };
                        let accrued = StakerInfo {
                            address: rec.address,
                            staked_amount: rec.staked_amount,
                            accrued_reward: reward,
                            last_accrual_time: now,
                        };
                        ledger.stakers.put(accrued);
                        true
                    } else {
                        true
                    }
                },
            }
        },
        RewardPolicy::PoolSnapshot { .. } => true,
    }
}

/// Time-weighted accrual for one participant at `now`. In a ledger whose stake
/// total is the sum of the stakes it credits no more than the daily amount for
/// each period that has passed.
pub fn accrue_time_weighted(ledger: &mut Ledger, now: u64, address: &Address)
    requires
        time_weighted_fits(old(ledger)@, address@, now as nat),
    ensures
        final(ledger)@ == accrued_time_weighted(old(ledger)@, address@, now as nat),
        balanced(old(ledger)@) ==> balanced(final(ledger)@),
        balanced(old(ledger)@) ==> match (
            old(ledger)@.config.policy,
            lookup(old(ledger)@.stakers, address@),
        ) {
            (
                PolicyView::TimeWeighted { daily_reward_amount, apy_prefix, reward_interval },
                Some(r),
            ) => {
                total_reward(final(ledger)@.stakers) <= total_reward(old(ledger)@.stakers)
                    + daily_reward_amount * periods_earned(
                    r,
                    now as nat,
                    reward_interval,
                    old(ledger)@.config.pool_stake_total,
                )
            },
            _ => total_reward(final(ledger)@.stakers) == total_reward(old(ledger)@.stakers),
        },
{
    let ghost before = ledger@;
    proof {
        use_type_invariant(&ledger.stakers);
        law_accrual_keeps_stakes(before, address@, now as nat);
        if balanced(before) && before.config.policy is TimeWeighted {
            law_accrual_within_schedule(before, address@, now as nat);
        }
    }
    let ok = accrue_time_weighted_checked(ledger, now, address);
    assert(ok);
}

/// What the participant `a` has staked; nothing where there is no record.
pub open spec fn stake_of(s: Seq<StakerView>, a: Seq<u8>) -> nat {
    match lookup(s, a) {
        Some(r) => r.staked_amount,
        None => 0,
    }
}

/// What the participant `a` has accrued; nothing where there is no record.
pub open spec fn reward_of(s: Seq<StakerView>, a: Seq<u8>) -> nat {
    match lookup(s, a) {
        Some(r) => r.accrued_reward,
        None => 0,
    }
}

/// The stake that stands behind the roster: the sum, over its entries, of what
/// each has staked. An address that stands twice on the roster counts twice.
pub open spec fn roster_stake(s: Seq<StakerView>, roster: Seq<Seq<u8>>) -> nat
    decreases roster.len(),
{
    if roster.len() == 0 {
        0
    } else {
        roster_stake(s, roster.drop_last()) + stake_of(s, roster.last())
    }
}

/// A roster entry's part of the pot: by its stake in the roster's stake, rounded down.
pub open spec fn pool_share(pot: nat, staked: nat, total: nat) -> nat {
    pot * staked / total
}

/// The store with `share` added to what `a` has accrued. Where `a` has no record,
/// nothing is added.
pub open spec fn credit(s: Seq<StakerView>, a: Seq<u8>, share: nat) -> Seq<StakerView> {
    match lookup(s, a) {
        Some(r) => put(s, StakerView { accrued_reward: r.accrued_reward + share, ..r }),
        None => s,
    }
}

/// The store after the pot has been split among the roster: each entry, in order,
/// is credited with its part by the stakes of `snapshot`, the store before the split.
pub open spec fn distributed(
    snapshot: Seq<StakerView>,
    roster: Seq<Seq<u8>>,
    pot: nat,
    total: nat,
) -> Seq<StakerView>
    decreases roster.len(),
{
    if roster.len() == 0 {
        snapshot
    } else {
        credit(
            distributed(snapshot, roster.drop_last(), pot, total),
            roster.last(),
            pool_share(pot, stake_of(snapshot, roster.last()), total),
        )
    }
}

/// Whether the split can be computed in 128 bits: for each roster entry the
/// product of pot and stake fits, and so does the entry's reward once credited.
pub open spec fn distribution_fits(
    snapshot: Seq<StakerView>,
    roster: Seq<Seq<u8>>,
    pot: nat,
    total: nat,
) -> bool
    decreases roster.len(),
{
    roster.len() == 0 || {
        &&& distribution_fits(snapshot, roster.drop_last(), pot, total)
        &&& pot * stake_of(snapshot, roster.last()) <= u128::MAX
        &&& reward_of(distributed(snapshot, roster, pot, total), roster.last()) <= u128::MAX
    }
}

/// The ledger with the pool's last accrual set to `now`.
pub open spec fn marked(l: LedgerView, now: nat) -> LedgerView {
    LedgerView { config: ConfigView { last_accrual_time: Some(now), ..l.config }, ..l }
}

/// The ledger after the pool-snapshot sweep at `now`. The first sweep only marks
/// the time. A later one, once a day boundary lies behind the last, marks the time
/// and splits the daily rate for each day among the roster; where nothing stands
/// behind the roster, it marks the time and splits nothing. Within the same day,
/// and on a ledger under the other policy, nothing changes.
pub open spec fn swept(l: LedgerView, now: nat) -> LedgerView {
    match l.config.policy {
        PolicyView::PoolSnapshot { daily_reward_rate } => match l.config.last_accrual_time {
            None => marked(l, now),
            Some(last) => {
                let days = periods_between(last, now, SECONDS_PER_DAY as nat);
                let pot = daily_reward_rate * days as nat;
                let total = roster_stake(l.stakers, l.config.roster);
                if days <= 0 {
                    l
                } else if total == 0 {
                    marked(l, now)
                } else {
                    LedgerView {
                        stakers: distributed(l.stakers, l.config.roster, pot, total),
                        ..marked(l, now)
                    }
                }
            },
        },
        PolicyView::TimeWeighted { .. } => l,
    }
}

/// Whether the sweep at `now` can be computed in 128 bits: the pot and the
/// roster's stake fit, and so does the split.
pub open spec fn sweep_fits(l: LedgerView, now: nat) -> bool {
    match l.config.policy {
        PolicyView::PoolSnapshot { daily_reward_rate } => match l.config.last_accrual_time {
            None => true,
            Some(last) => {
                let days = periods_between(last, now, SECONDS_PER_DAY as nat);
                let pot = daily_reward_rate * days as nat;
                let total = roster_stake(l.stakers, l.config.roster);
                days > 0 ==> {
                    &&& pot <= u128::MAX
                    &&& total <= u128::MAX
                    &&& total > 0 ==> distribution_fits(l.stakers, l.config.roster, pot, total)
                }
            },
        },
        PolicyView::TimeWeighted { .. } => true,
    }
}

/// Crediting keeps the order of the store, every stake, and who has a record.
pub proof fn lemma_credit(s: Seq<StakerView>, a: Seq<u8>, share: nat, b: Seq<u8>)
    requires
        sorted(s),
    ensures
        sorted(credit(s, a, share)),
        stake_of(credit(s, a, share), b) == stake_of(s, b),
        lookup(credit(s, a, share), b) is Some <==> lookup(s, b) is Some,
        reward_of(credit(s, a, share), b) == if a == b && lookup(s, a) is Some {
            reward_of(s, b) + share
        } else {
            reward_of(s, b)
        },
{
    match lookup(s, a) {
        Some(r) => {
            let e = StakerView { accrued_reward: r.accrued_reward + share, ..r };
            lemma_lookup_member(s, a);
            lemma_put(s, e);
            if b != a {
                lemma_put_other(s, e, b);
            }
        },
        None => {},
    }
}

/// The split keeps the order of the store, every stake, and who has a record.
pub proof fn lemma_distributed(
    snapshot: Seq<StakerView>,
    roster: Seq<Seq<u8>>,
    pot: nat,
    total: nat,
    b: Seq<u8>,
)
    requires
        sorted(snapshot),
    ensures
        sorted(distributed(snapshot, roster, pot, total)),
        stake_of(distributed(snapshot, roster, pot, total), b) == stake_of(snapshot, b),
        lookup(distributed(snapshot, roster, pot, total), b) is Some <==> lookup(snapshot, b)
            is Some,
    decreases roster.len(),
{
    if roster.len() > 0 {
        lemma_distributed(snapshot, roster.drop_last(), pot, total, b);
        lemma_credit(
            distributed(snapshot, roster.drop_last(), pot, total),
            roster.last(),
            pool_share(pot, stake_of(snapshot, roster.last()), total),
            b,
        );
    }
}

/// Crediting a participant leaves every stake, and so their sum, as it was.
pub proof fn lemma_credit_keeps_stake(s: Seq<StakerView>, a: Seq<u8>, share: nat)
    requires
        sorted(s),
    ensures
        total_staked(credit(s, a, share)) == total_staked(s),
{
    match lookup(s, a) {
        Some(r) => {
            lemma_total_put(
                s,
                StakerView { accrued_reward: r.accrued_reward + share, ..r },
                |e: StakerView| e.staked_amount,
            );
            lemma_lookup_member(s, a);
        },
        None => {},
    }
}

/// Splitting a pot leaves every stake, and so their sum, as it was.
pub proof fn lemma_distributed_keeps_stake(
    snapshot: Seq<StakerView>,
    roster: Seq<Seq<u8>>,
    pot: nat,
    total: nat,
)
    requires
        sorted(snapshot),
    ensures
        total_staked(distributed(snapshot, roster, pot, total)) == total_staked(snapshot),
        sorted(distributed(snapshot, roster, pot, total)),
    decreases roster.len(),
{
    if roster.len() > 0 {
        lemma_distributed_keeps_stake(snapshot, roster.drop_last(), pot, total);
        lemma_credit_keeps_stake(
            distributed(snapshot, roster.drop_last(), pot, total),
            roster.last(),
            pool_share(pot, stake_of(snapshot, roster.last()), total),
        );
        lemma_distributed(snapshot, roster, pot, total, roster.last());
    }
}

/// What crediting adds to the sum of the rewards: the share, where the
/// participant has a record.
pub proof fn lemma_credit_adds(s: Seq<StakerView>, a: Seq<u8>, share: nat)
    requires
        sorted(s),
    ensures
        total_reward(credit(s, a, share)) == total_reward(s) + if lookup(s, a) is Some {
            share
        } else {
            0
        },
{
    match lookup(s, a) {
        Some(r) => {
            lemma_total_put(
                s,
                StakerView { accrued_reward: r.accrued_reward + share, ..r },
                |e: StakerView| e.accrued_reward,
            );
            lemma_lookup_member(s, a);
        },
        None => {},
    }
}

/// A share, rounded down, times the roster's stake is at most the pot times the
/// entry's stake.
proof fn lemma_share_rounds_down(pot: nat, staked: nat, total: nat)
    requires
        0 < total,
    ensures
        pool_share(pot, staked, total) * total <= pot * staked,
{
    let x = pot * staked;
    assert((x / total) * total <= x) by (nonlinear_arith)
        requires
            0 < total,
            0 <= x,
    ;
}

/// What a split adds to the sum of the rewards, times the roster's stake, is at
/// most the pot times the stake behind the entries that were credited.
pub proof fn lemma_distribution_bound(
    snapshot: Seq<StakerView>,
    roster: Seq<Seq<u8>>,
    pot: nat,
    total: nat,
)
    requires
        sorted(snapshot),
        0 < total,
    ensures
        total_reward(snapshot) <= total_reward(distributed(snapshot, roster, pot, total)),
        (total_reward(distributed(snapshot, roster, pot, total)) - total_reward(snapshot)) * total
            <= pot * roster_stake(snapshot, roster),
    decreases roster.len(),
{
    if roster.len() == 0 {
        assert(0 * total <= pot * 0) by (nonlinear_arith);
    } else {
        let a = roster.last();
        let before = distributed(snapshot, roster.drop_last(), pot, total);
        let share = pool_share(pot, stake_of(snapshot, a), total);
        lemma_distribution_bound(snapshot, roster.drop_last(), pot, total);
        lemma_distributed(snapshot, roster.drop_last(), pot, total, a);
        lemma_credit_adds(before, a, share);
        lemma_share_rounds_down(pot, stake_of(snapshot, a), total);
        let d0 = total_reward(before) - total_reward(snapshot);
        let rs0 = roster_stake(snapshot, roster.drop_last());
        let st = stake_of(snapshot, a);
        if lookup(before, a) is Some {
            assert((d0 + share) * total <= pot * (rs0 + st)) by (nonlinear_arith)
                requires
                    d0 * total <= pot * rs0,
                    share * total <= pot * st,
            ;
        } else {
            assert(st == 0);
            assert(d0 * total <= pot * (rs0 + st)) by (nonlinear_arith)
                requires
                    d0 * total <= pot * rs0,
                    st == 0,
            ;
        }
    }
}

/// Crediting takes from no participant's reward.
pub proof fn lemma_distributed_adds(
    snapshot: Seq<StakerView>,
    roster: Seq<Seq<u8>>,
    pot: nat,
    total: nat,
    b: Seq<u8>,
)
    requires
        sorted(snapshot),
    ensures
        reward_of(snapshot, b) <= reward_of(
            distributed(snapshot, roster, pot, total),
            b,
        ),
    decreases roster.len(),
{
    if roster.len() > 0 {
        lemma_distributed_adds(snapshot, roster.drop_last(), pot, total, b);
        lemma_distributed(snapshot, roster.drop_last(), pot, total, b);
        lemma_credit(
            distributed(snapshot, roster.drop_last(), pot, total),
            roster.last(),
            pool_share(pot, stake_of(snapshot, roster.last()), total),
            b,
        );
    }
}

/// The roster's first `i` entries, as a roster of their own.
proof fn lemma_take_step(roster: Seq<Seq<u8>>, i: int)
    requires
        0 <= i < roster.len(),
    ensures
        roster.take(i + 1).drop_last() == roster.take(i),
        roster.take(i + 1).last() == roster[i],
{
    assert(roster.take(i + 1).drop_last() =~= roster.take(i));
}

/// What stands behind the first entries of a roster is no more than what stands
/// behind all of it.
proof fn lemma_roster_stake_prefix(s: Seq<StakerView>, roster: Seq<Seq<u8>>, i: int)
    requires
        0 <= i <= roster.len(),
    ensures
        roster_stake(s, roster.take(i)) <= roster_stake(s, roster),
    decreases roster.len(),
{
    if i == roster.len() {
        assert(roster.take(i) =~= roster);
    } else {
        assert(roster.drop_last().take(i) =~= roster.take(i));
        lemma_roster_stake_prefix(s, roster.drop_last(), i);
    }
}

/// A split that fits, fits for the first entries of the roster too.
proof fn lemma_distribution_fits_prefix(
    snapshot: Seq<StakerView>,
    roster: Seq<Seq<u8>>,
    pot: nat,
    total: nat,
    i: int,
)
    requires
        0 <= i <= roster.len(),
        distribution_fits(snapshot, roster, pot, total),
    ensures
        distribution_fits(snapshot, roster.take(i), pot, total),
    decreases roster.len(),
{
    if i == roster.len() {
        assert(roster.take(i) =~= roster);
    } else {
        assert(roster.drop_last().take(i) =~= roster.take(i));
        lemma_distribution_fits_prefix(snapshot, roster.drop_last(), pot, total, i);
    }
}

/// The stake that stands behind the roster, where the sum fits in 128 bits.
pub(crate) fn roster_total(stakers: &StakerStore, roster: &Vec<Address>) -> (res: Option<u128>)
    ensures
        res is Some <==> roster_stake(stakers@, addresses_view(roster@)) <= u128::MAX,
        res is Some ==> res->0 == roster_stake(stakers@, addresses_view(roster@)),
{
    let ghost s = stakers@;
    let ghost r = addresses_view(roster@);
    let mut sum: u128 = 0;
    let mut i: usize = 0;
    while i < roster.len()
        invariant
            0 <= i <= roster.len(),
            s == stakers@,
            r == addresses_view(roster@),
            r.len() == roster.len(),
            sum == roster_stake(s, r.take(i as int)),
        decreases roster.len() - i,
    {
        proof {
            lemma_take_step(r, i as int);
            lemma_roster_stake_prefix(s, r, i + 1);
        }
        let staked = match stakers.get(&roster[i]) {
            Some(rec) => rec.staked_amount,
            None => 0,
        };
        assert(staked == stake_of(s, r[i as int]));
        sum = match sum.checked_add(staked) {
            Some(t) => t,
            None => { return None; },
        };
        i = i + 1;
    }
    assert(r.take(r.len() as int) =~= r);
    Some(sum)
}

/// Splits the pot among the roster, and finds out by itself whether the amounts
/// fit. Where they do not, it answers `false` and the store is not to be used further.
pub(crate) fn distribute(
    stakers: &mut StakerStore,
    roster: &Vec<Address>,
    pot: u128,
    total: u128,
) -> (ok: bool)
    requires
        total > 0,
    ensures
        ok == distribution_fits(old(stakers)@, addresses_view(roster@), pot as nat, total as nat),
        ok ==> final(stakers)@ == distributed(
            old(stakers)@,
            addresses_view(roster@),
            pot as nat,
            total as nat,
        ),
{
    let ghost s = stakers@;
    let ghost r = addresses_view(roster@);
    proof {
        use_type_invariant(&*stakers);
    }
    let mut i: usize = 0;
    while i < roster.len()
        invariant
            0 <= i <= roster.len(),
            r == addresses_view(roster@),
            r.len() == roster.len(),
            s == old(stakers)@,
            sorted(s),
            total > 0,
            stakers@ == distributed(s, r.take(i as int), pot as nat, total as nat),
            distribution_fits(s, r.take(i as int), pot as nat, total as nat),
        decreases roster.len() - i,
    {
        let ghost prev = stakers@;
        let ghost a = r[i as int];
        let ghost p = pot as nat;
        let ghost t = total as nat;
        let ghost share = pool_share(p, stake_of(s, a), t);
        proof {
            lemma_take_step(r, i as int);
            lemma_distributed(s, r.take(i as int), p, t, a);
            lemma_credit(prev, a, share, a);
            if distribution_fits(s, r, p, t) {
                lemma_distribution_fits_prefix(s, r, p, t, i + 1);
            }
            assert(distributed(s, r.take(i + 1), p, t) == credit(prev, a, share));
        }
        match stakers.get(&roster[i]) {
            Some(rec) => {
                assert(rec.staked_amount == stake_of(s, a));
                assert(rec.accrued_reward == reward_of(prev, a));
                let by_stake = match pot.checked_mul(rec.staked_amount) {
                    Some(x) => x,
                    None => {
                        assert(!distribution_fits(s, r.take(i + 1), p, t));
                        return false;
                    },
                };
                let part = by_stake / total;
                assert(part == share);
                let reward = match rec.accrued_reward.checked_add(part) {
                    Some(x) => x,
                    None => {
                        assert(!distribution_fits(s, r.take(i + 1), p, t));
                        return false;
                    },
                };
                stakers.put(
                    StakerInfo {
                        address: rec.address,
                        staked_amount: rec.staked_amount,
                        accrued_reward: reward,
                        last_accrual_time: rec.last_accrual_time,
                    },
                );
                assert(distribution_fits(s, r.take(i + 1), p, t));
            },
            None => {
                assert(p * stake_of(s, a) == 0) by (nonlinear_arith)
                    requires
                        stake_of(s, a) == 0,
                ;
                assert(distribution_fits(s, r.take(i + 1), p, t));
            },
        }
        i = i + 1;
    }
    assert(r.take(r.len() as int) =~= r);
    true
}

/// The pool-snapshot sweep, finding out by itself whether the amounts fit. Where
/// they do not, it answers `false` and the ledger is not to be used further.
pub(crate) fn sweep_all_checked(ledger: &mut Ledger, now: u64) -> (ok: bool)
    ensures
        ok == sweep_fits(old(ledger)@, now as nat),
        ok ==> final(ledger)@ == swept(old(ledger)@, now as nat),
{
    match ledger.config.policy {
        RewardPolicy::PoolSnapshot { daily_reward_rate } => match ledger.config.last_accrual_time {
            None => {
                ledger.config.last_accrual_time = Some(now);
                true
            },
            Some(last) => {
                let today = now / SECONDS_PER_DAY;
                let last_day = last / SECONDS_PER_DAY;
                if today > last_day {
                    let days: u64 = today - last_day;
                    let pot = match daily_reward_rate.checked_mul(days as u128) {
                        Some(p) => p,
                        None => { return false; },
                    };
                    let total = match roster_total(&ledger.stakers, &ledger.config.roster) {
                        Some(t) => t,
                        None => { return false; },
                    };
                    ledger.config.last_accrual_time = Some(now);
                    if total > 0 {
                        distribute(&mut ledger.stakers, &ledger.config.roster, pot, total)
                    } else {
                        true
                    }
                } else {
                    true
                }
            },
        },
        RewardPolicy::TimeWeighted { .. } => true,
    }
}

/// The pool-snapshot sweep at `now`. It credits no more than the daily rate for
/// each day that has passed, and leaves every stake as it was.
pub fn sweep_all(ledger: &mut Ledger, now: u64)
    requires
        sweep_fits(old(ledger)@, now as nat),
    ensures
        final(ledger)@ == swept(old(ledger)@, now as nat),
        balanced(old(ledger)@) ==> balanced(final(ledger)@),
        match old(ledger)@.config.policy {
            PolicyView::PoolSnapshot { daily_reward_rate } => {
                total_reward(final(ledger)@.stakers) <= total_reward(old(ledger)@.stakers)
                    + daily_reward_rate * days_earned(old(ledger)@, now as nat)
            },
            _ => total_reward(final(ledger)@.stakers) == total_reward(old(ledger)@.stakers),
        },
{
    let ghost before = ledger@;
    proof {
        use_type_invariant(&ledger.stakers);
        if before.config.policy is PoolSnapshot {
            law_accrual_keeps_stakes(before, Seq::<u8>::empty(), now as nat);
            law_sweep_within_schedule(before, now as nat);
        }
    }
    let ok = sweep_all_checked(ledger, now);
    assert(ok);
}

/// The ledger after accrual for `a` at `now`, by the ledger's policy.
pub open spec fn accrued(l: LedgerView, a: Seq<u8>, now: nat) -> LedgerView {
    match l.config.policy {
        PolicyView::TimeWeighted { .. } => accrued_time_weighted(l, a, now),
        PolicyView::PoolSnapshot { .. } => swept(l, now),
    }
}

/// Whether accrual for `a` at `now` can be computed in 128 bits.
pub open spec fn accrual_fits(l: LedgerView, a: Seq<u8>, now: nat) -> bool {
    match l.config.policy {
        PolicyView::TimeWeighted { .. } => time_weighted_fits(l, a, now),
        PolicyView::PoolSnapshot { .. } => sweep_fits(l, now),
    }
}

/// Accrual by the ledger's policy, finding out by itself whether the amounts fit.
/// Where they do not, it answers `false` and the ledger is not to be used further.
pub(crate) fn accrue_checked(ledger: &mut Ledger, now: u64, address: &Address) -> (ok: bool)
    ensures
        ok == accrual_fits(old(ledger)@, address@, now as nat),
        ok ==> final(ledger)@ == accrued(old(ledger)@, address@, now as nat),
{
    match ledger.config.policy {
        RewardPolicy::TimeWeighted { .. } => accrue_time_weighted_checked(ledger, now, address),
        RewardPolicy::PoolSnapshot { .. } => sweep_all_checked(ledger, now),
    }
}

} // verus!
