//! What goes into the ledger's operations and what comes out of them.
//!
//! On the wire the pool's two tokens go by the names FOT and gFOT: FOT is the
//! reward token, gFOT the stake token.

use crate::address::Address;
use crate::state::{address_opt_view, Config, RewardPolicy, StakerInfo};
use vstd::prelude::*;

verus! {

/// What a new pool is made from.
#[derive(Debug, PartialEq, Eq)]
pub struct InstantiateMsg {
    /// The owner; where none is named, whoever makes the pool owns it.
    pub owner: Option<Address>,
    pub stake_token_address: Address,
    pub reward_token_address: Address,
    pub conversion_token_address: Option<Address>,
    pub policy: RewardPolicy,
}

/// A token's notice that `amount` of it has been transferred to the pool by `sender`.
#[derive(Debug, PartialEq, Eq)]
pub struct TransferNotice {
    pub sender: Address,
    pub amount: u128,
    /// Free-form bytes that came with the transfer. The pool does not read them.
    pub payload: Vec<u8>,
}

/// A request that changes the ledger.
#[derive(Debug, PartialEq, Eq)]
pub enum ExecuteMsg {
    UpdateConfig { new_owner: Option<Address> },
    UpdateConstants { daily_reward_amount: u128, apy_prefix: u128, reward_interval: u64 },
    Receive(TransferNotice),
    WithdrawRewardToken {},
    WithdrawStakeToken {},
    ClaimReward {},
    Unstake {},
    AddStakers { stakers: Vec<StakerInfo> },
    RemoveStaker { address: Address },
    RemoveAllStakers { start_after: Option<Address>, limit: Option<u32> },
}

/// A request that reads the ledger.
#[derive(Debug, PartialEq, Eq)]
pub enum QueryMsg {
    Config {},
    Staker { address: Address },
    ListStakers { start_after: Option<Address>, limit: Option<u32> },
    Apy {},
}

/// One page of the participants' records.
#[derive(Debug, PartialEq, Eq)]
pub struct StakerListResponse {
    pub stakers: Vec<StakerInfo>,
}

/// The answer to a query.
#[derive(Debug, PartialEq, Eq)]
pub enum QueryResponse {
    Config(Config),
    Staker(StakerInfo),
    ListStakers(StakerListResponse),
    Apy(u128),
}

/// What an operation did, as the first attribute of its event says it.
#[derive(Clone, Copy, Debug, PartialEq, Eq)]
pub enum Action {
    /// Nothing to report.
    Nothing,
    CheckOwner,
    UpdateConfig,
    UpdateConstants,
    Stake,
    Fund,
    ClaimReward,
    Unstake,
    WithdrawReward,
    WithdrawStake,
    AddStakers,
    RemoveStaker,
    RemoveAllStakers,
}

/// An instruction to move `amount` of `token` to `recipient`. The ledger is
/// updated as if the transfer had been made; whoever carries it out must let the
/// whole operation fail where the transfer fails.
#[derive(Debug, PartialEq, Eq)]
pub struct Transfer {
    pub token: Address,
    pub recipient: Address,
    pub amount: u128,
}

/// The model of a transfer instruction.
pub struct TransferView {
    pub token: Seq<u8>,
    pub recipient: Seq<u8>,
    pub amount: nat,
}

impl View for Transfer {
    type V = TransferView;

    open spec fn view(&self) -> TransferView {
        TransferView {
            token: self.token@,
            recipient: self.recipient@,
            amount: self.amount as nat,
        }
    }
}

/// What a successful operation reports: the event, and the transfer that is to
/// be made for it, if any.
#[derive(Debug, PartialEq, Eq)]
pub struct Outcome {
    pub action: Action,
    /// The participant or owner that the event is about.
    pub address: Option<Address>,
    /// The amount that the event is about.
    pub amount: Option<u128>,
    pub transfer: Option<Transfer>,
}

/// The model of an outcome.
pub struct OutcomeView {
    pub action: Action,
    pub address: Option<Seq<u8>>,
    pub amount: Option<nat>,
    pub transfer: Option<TransferView>,
}

impl View for Outcome {
    type V = OutcomeView;

    open spec fn view(&self) -> OutcomeView {
        OutcomeView {
            action: self.action,
            address: address_opt_view(self.address),
            amount: match self.amount {
                Some(a) => Some(a as nat),
                None => None,
            },
            transfer: match self.transfer {
                Some(t) => Some(t@),
                None => None,
            },
        }
    }
}

/// The outcome of an operation that has only its name to report.
pub open spec fn bare_outcome(action: Action) -> OutcomeView {
    OutcomeView { action, address: None, amount: None, transfer: None }
}

/// The outcome of an operation on `amount` for `address`, with the transfer that
/// it asks for, if any.
pub open spec fn amount_outcome(
    action: Action,
    address: Seq<u8>,
    amount: nat,
    transfer: Option<TransferView>,
) -> OutcomeView {
    OutcomeView { action, address: Some(address), amount: Some(amount), transfer }
}

impl Outcome {
    /// The outcome of an operation that has only its name to report.
    pub fn bare(action: Action) -> (res: Outcome)
        ensures
            res@ == bare_outcome(action),
    {
        Outcome { action, address: None, amount: None, transfer: None }
    }
}

impl Action {
    /// The action's name as an event attribute has it.
    pub open spec fn spec_label(self) -> Seq<char> {
        match self {
            Action::Nothing => ""@,
            Action::CheckOwner => "check_owner"@,
            Action::UpdateConfig => "update_config"@,
            Action::UpdateConstants => "update_constants"@,
            Action::Stake => "stake"@,
            Action::Fund => "fund"@,
            Action::ClaimReward => "claim_reward"@,
            Action::Unstake => "unstake"@,
            Action::WithdrawReward => "fot_withdraw_all"@,
            Action::WithdrawStake => "gfot_withdraw_all"@,
            Action::AddStakers => "add_stakers"@,
            Action::RemoveStaker => "remove_staker"@,
            Action::RemoveAllStakers => "remove_all_stakers"@,
        }
    }

    /// The action's name as an event attribute has it.
    pub fn label(&self) -> (s: &'static str)
        ensures
            s@ == self.spec_label(),
    {
        match self {
            Action::Nothing => "",
            Action::CheckOwner => "check_owner",
            Action::UpdateConfig => "update_config",
            Action::UpdateConstants => "update_constants",
            Action::Stake => "stake",
            Action::Fund => "fund",
            Action::ClaimReward => "claim_reward",
            Action::Unstake => "unstake",
            Action::WithdrawReward => "fot_withdraw_all",
            Action::WithdrawStake => "gfot_withdraw_all",
            Action::AddStakers => "add_stakers",
            Action::RemoveStaker => "remove_staker",
            Action::RemoveAllStakers => "remove_all_stakers",
        }
    }

    /// The key under which an event of this action reports its amount.
    pub open spec fn spec_amount_key(self) -> Seq<char> {
        match self {
            Action::ClaimReward | Action::WithdrawReward => "fot_amount"@,
            Action::Unstake | Action::WithdrawStake => "gfot_amount"@,
            _ => "amount"@,
        }
    }

    /// The key under which an event of this action reports its amount.
    pub fn amount_key(&self) -> (s: &'static str)
        ensures
            s@ == self.spec_amount_key(),
    {
        match self {
            Action::ClaimReward | Action::WithdrawReward => "fot_amount",
            Action::Unstake | Action::WithdrawStake => "gfot_amount",
            _ => "amount",
        }
    }
}

} // verus!
