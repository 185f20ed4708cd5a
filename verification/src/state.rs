//! The ledger's data: the pool configuration, the participants' records, and the
//! mathematical model that the contracts of the operations speak of.

use crate::address::Address;
use crate::store::{sorted, StakerStore};
use vstd::prelude::*;

verus! {

/// Seconds in a day: the reward period of the pool-snapshot policy.
pub const SECONDS_PER_DAY: u64 = 86400;

/// How the pool turns elapsed time into reward.
#[derive(Clone, Copy, Debug, PartialEq, Eq)]
pub enum RewardPolicy {
    /// Each participant accrues on their own: for every whole reward interval
    /// since their last accrual, their share of the daily amount by stake.
    TimeWeighted { daily_reward_amount: u128, apy_prefix: u128, reward_interval: u64 },
    /// The pool accrues as a whole: for every whole day since the pool's last
    /// accrual, the daily rate is split among everyone on the roster by stake.
    PoolSnapshot { daily_reward_rate: u128 },
}

/// The record of one participant.
#[derive(Debug, PartialEq, Eq)]
pub struct StakerInfo {
    pub address: Address,
    /// Principal that the participant has in the pool.
    pub staked_amount: u128,
    /// Reward that the participant has earned and not yet claimed.
    pub accrued_reward: u128,
    /// Time of the participant's last accrual (time-weighted policy).
    pub last_accrual_time: u64,
}

/// The model of a participant's record.
pub struct StakerView {
    pub address: Seq<u8>,
    pub staked_amount: nat,
    pub accrued_reward: nat,
    pub last_accrual_time: nat,
}

impl View for StakerInfo {
    type V = StakerView;

    open spec fn view(&self) -> StakerView {
        StakerView {
            address: self.address@,
            staked_amount: self.staked_amount as nat,
            accrued_reward: self.accrued_reward as nat,
            last_accrual_time: self.last_accrual_time as nat,
        }
    }
}

impl Clone for StakerInfo {
    fn clone(&self) -> (res: Self)
        ensures
            res@ == self@,
    {
        StakerInfo {
            address: self.address.clone(),
            staked_amount: self.staked_amount,
            accrued_reward: self.accrued_reward,
            last_accrual_time: self.last_accrual_time,
        }
    }
}

/// The pool's configuration and totals.
#[derive(Debug, PartialEq, Eq)]
pub struct Config {
    /// Who may administer the pool. With no owner, nobody can, for good.
    pub owner: Option<Address>,
    pub stake_token_address: Address,
    pub reward_token_address: Address,
    /// A third token that the time-weighted pool keeps track of and never reads.
    pub conversion_token_address: Option<Address>,
    /// Sum of what the participants have staked.
    pub pool_stake_total: u128,
    /// Reward token that the pool holds to pay claims from.
    pub pool_reward_held: u128,
    pub policy: RewardPolicy,
    /// Time of the pool's last accrual (pool-snapshot policy); none before the first.
    pub last_accrual_time: Option<u64>,
    /// Everyone who ever entered the pool, in order of entry, each once and for
    /// good (pool-snapshot policy).
    pub roster: Vec<Address>,
}

/// The model of the reward policy.
pub enum PolicyView {
    TimeWeighted { daily_reward_amount: nat, apy_prefix: nat, reward_interval: nat },
    PoolSnapshot { daily_reward_rate: nat },
}

impl View for RewardPolicy {
    type V = PolicyView;

    open spec fn view(&self) -> PolicyView {
        match *self {
            RewardPolicy::TimeWeighted { daily_reward_amount, apy_prefix, reward_interval } => {
                PolicyView::TimeWeighted {
                    daily_reward_amount: daily_reward_amount as nat,
                    apy_prefix: apy_prefix as nat,
                    reward_interval: reward_interval as nat,
                }
            },
            RewardPolicy::PoolSnapshot { daily_reward_rate } => PolicyView::PoolSnapshot {
                daily_reward_rate: daily_reward_rate as nat,
            },
        }
    }
}

/// The model of the configuration.
pub struct ConfigView {
    pub owner: Option<Seq<u8>>,
    pub stake_token_address: Seq<u8>,
    pub reward_token_address: Seq<u8>,
    pub conversion_token_address: Option<Seq<u8>>,
    pub pool_stake_total: nat,
    pub pool_reward_held: nat,
    pub policy: PolicyView,
    pub last_accrual_time: Option<nat>,
    pub roster: Seq<Seq<u8>>,
}

/// The model of an optional address.
pub open spec fn address_opt_view(a: Option<Address>) -> Option<Seq<u8>> {
    match a {
        Some(a) => Some(a@),
        None => None,
    }
}

/// The model of an optional time.
pub open spec fn time_opt_view(t: Option<u64>) -> Option<nat> {
    match t {
        Some(t) => Some(t as nat),
        None => None,
    }
}

/// The model of a list of addresses.
pub open spec fn addresses_view(v: Seq<Address>) -> Seq<Seq<u8>> {
    Seq::new(v.len(), |i: int| v[i]@)
}

/// The model of a list of records.
pub open spec fn stakers_view(v: Seq<StakerInfo>) -> Seq<StakerView> {
    Seq::new(v.len(), |i: int| v[i]@)
}

impl View for Config {
    type V = ConfigView;

    open spec fn view(&self) -> ConfigView {
        ConfigView {
            owner: address_opt_view(self.owner),
            stake_token_address: self.stake_token_address@,
            reward_token_address: self.reward_token_address@,
            conversion_token_address: address_opt_view(self.conversion_token_address),
            pool_stake_total: self.pool_stake_total as nat,
            pool_reward_held: self.pool_reward_held as nat,
            policy: self.policy@,
            last_accrual_time: time_opt_view(self.last_accrual_time),
            roster: addresses_view(self.roster@),
        }
    }
}

/// A copy of an optional address.
pub fn clone_address_opt(a: &Option<Address>) -> (res: Option<Address>)
    ensures
        address_opt_view(res) == address_opt_view(*a),
{
    match a {
        Some(a) => Some(a.clone()),
        None => None,
    }
}

/// A copy of a list of addresses.
pub fn clone_addresses(v: &Vec<Address>) -> (res: Vec<Address>)
    ensures
        addresses_view(res@) == addresses_view(v@),
{
    let mut res: Vec<Address> = Vec::new();
    let mut i: usize = 0;
    while i < v.len()
        invariant
            0 <= i <= v.len(),
            res.len() == i,
            forall|j: int| 0 <= j < i ==> res[j]@ == v[j]@,
        decreases v.len() - i,
    {
        res.push(v[i].clone());
        i = i + 1;
    }
    assert(addresses_view(res@) =~= addresses_view(v@));
    res
}

/// A copy of a list of records.
pub fn clone_stakers(v: &Vec<StakerInfo>) -> (res: Vec<StakerInfo>)
    ensures
        stakers_view(res@) == stakers_view(v@),
{
    let mut res: Vec<StakerInfo> = Vec::new();
    let mut i: usize = 0;
    while i < v.len()
        invariant
            0 <= i <= v.len(),
            res.len() == i,
            forall|j: int| 0 <= j < i ==> res[j]@ == v[j]@,
        decreases v.len() - i,
    {
        res.push(v[i].clone());
        i = i + 1;
    }
    assert(stakers_view(res@) =~= stakers_view(v@));
    res
}

impl Clone for Config {
    fn clone(&self) -> (res: Self)
        ensures
            res@ == self@,
    {
        Config {
            owner: clone_address_opt(&self.owner),
            stake_token_address: self.stake_token_address.clone(),
            reward_token_address: self.reward_token_address.clone(),
            conversion_token_address: clone_address_opt(&self.conversion_token_address),
            pool_stake_total: self.pool_stake_total,
            pool_reward_held: self.pool_reward_held,
            policy: self.policy,
            last_accrual_time: self.last_accrual_time,
            roster: clone_addresses(&self.roster),
        }
    }
}

/// The ledger: the pool's configuration and the records of its participants.
#[derive(Debug, PartialEq, Eq)]
pub struct Ledger {
    pub config: Config,
    pub stakers: StakerStore,
}

/// The model of the ledger: the configuration, and the records in ascending
/// order of address.
pub struct LedgerView {
    pub config: ConfigView,
    pub stakers: Seq<StakerView>,
}

impl View for Ledger {
    type V = LedgerView;

    open spec fn view(&self) -> LedgerView {
        LedgerView { config: self.config@, stakers: self.stakers@ }
    }
}

impl Clone for Ledger {
    fn clone(&self) -> (res: Self)
        ensures
            res@ == self@,
    {
        Ledger { config: self.config.clone(), stakers: self.stakers.clone() }
    }
}

impl LedgerView {
    /// The records are in order, no address twice: what holds of the model of
    /// every ledger, since it holds of every store.
    pub open spec fn wf(self) -> bool {
        sorted(self.stakers)
    }
}

} // verus!
