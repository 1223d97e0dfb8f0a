//! The requests that the engine takes.

use crate::state::{Coin, UnparsedRecipient, Will};
use vstd::prelude::*;

verus! {

/// The request to set the engine up. It carries nothing.
#[derive(Debug, PartialEq, Eq, Clone)]
pub struct InstantiateMsg {}

/// A request that changes what is kept.
#[derive(Debug, PartialEq, Eq, Clone)]
pub enum ExecuteMsg {
    /// The sender shows to be alive.
    ResetTimestamp {},
    /// The funds that come with the call go into the sender's will.
    DepositTokens {},
    /// The sender takes `tokens` out of its will.
    WithdrawTokens { tokens: Vec<Coin> },
    /// The will of `owner` is to be distributed.
    DistributeAssets { owner: String },
    /// The sender names `recipients`.
    SetRecipients { recipients: Vec<UnparsedRecipient> },
    /// The sender sets the interval within which its will must be renewed.
    SetRenewalRate { renewal_rate: u128 },
}

impl ExecuteMsg {
    /// Whether the request, once carried out, shows its sender to be alive:
    /// whether it renews the sender's will. A withdrawal does not, and a
    /// distribution is not the owner's doing.
    pub open spec fn renews(&self) -> bool {
        !(self is WithdrawTokens || self is DistributeAssets)
    }

    /// Whether the request, once carried out, renews the sender's will.
    pub fn refreshes_liveness(&self) -> (res: bool)
        ensures
            res == self.renews(),
    {
        match self {
            ExecuteMsg::WithdrawTokens { .. } => false,
            ExecuteMsg::DistributeAssets { .. } => false,
            _ => true,
        }
    }
}

/// A request that only reads.
#[derive(Debug, PartialEq, Eq, Clone)]
pub enum QueryMsg {
    /// The wills that name `address`.
    SeeMemberships { address: String },
    /// The will of `address`.
    GetWill { address: String },
}

/// The answer to a [`QueryMsg`].
#[derive(Debug, PartialEq, Eq, Clone)]
pub enum QueryResponse {
    /// The answer to `SeeMemberships`.
    Memberships(Vec<Will>),
    /// The answer to `GetWill`.
    Will(Will),
}

} // verus!
