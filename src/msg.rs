use vstd::prelude::*;

use crate::ownership::{Action, Ownership};

verus! {

/// How the module is set up: the collection whose tokens carry the votes, and
/// the delegated owner (the instantiating governing body when absent).
#[derive(Debug, Clone, PartialEq, Eq)]
pub struct InstantiateMsg {
    pub nft_contract: String,
    pub owner: Option<String>,
}

/// The calls that change state.
#[derive(Debug, Clone, PartialEq, Eq)]
pub enum ExecuteMsg {
    /// Register the sender's one token to vote.
    Register {},
    /// Withdraw the sender's registration.
    Unregister {},
    /// Set the voting power of a token. Only the governing body or the owner.
    SetVotingPower { token_id: String, power: u128 },
    /// Drop the registration of a token whose registered voter no longer holds it.
    Sync { token_id: String },
    /// Add an endpoint to notify on registration changes. Only the governing body or the owner.
    AddHook { addr: String },
    /// Remove a notified endpoint. Only the governing body or the owner.
    RemoveHook { addr: String },
    /// Transfer, accept or renounce the delegated ownership.
    UpdateOwnership(Action),
}

/// The queries.
#[derive(Debug, Clone, PartialEq, Eq)]
pub enum QueryMsg {
    Dao {},
    NftContract {},
    Info {},
    Hooks {},
    RegisteredNft { address: String },
    ListVoters { start_after: Option<String>, limit: Option<u32> },
    TotalPowerAtHeight { height: Option<u64> },
    VotingPowerAtHeight { address: String, height: Option<u64> },
    Ownership {},
}

#[derive(Debug, Clone, PartialEq, Eq)]
pub struct RegisteredNftResponse {
    /// The registered token, if the address is registered.
    pub token_id: Option<String>,
}

#[derive(Debug, Clone, PartialEq, Eq)]
pub struct ListVotersResponse {
    /// A page of registered voters, in ascending order.
    pub voters: Vec<String>,
}

#[derive(Debug, Clone, PartialEq, Eq)]
pub struct MigrateMsg {}

#[derive(Debug, Clone, PartialEq, Eq)]
pub struct VotingPowerAtHeightResponse {
    pub power: u128,
    pub height: u64,
}

#[derive(Debug, Clone, PartialEq, Eq)]
pub struct TotalPowerAtHeightResponse {
    pub power: u128,
    pub height: u64,
}

#[derive(Debug, Clone, PartialEq, Eq)]
pub struct HooksResponse {
    pub hooks: Vec<String>,
}

/// The name and version of the code that last wrote the module's state.
#[derive(Debug, Clone, PartialEq, Eq)]
pub struct ContractVersion {
    pub contract: String,
    pub version: String,
}

#[derive(Debug, Clone, PartialEq, Eq)]
pub struct InfoResponse {
    pub info: ContractVersion,
}

/// The event that a notified endpoint receives.
#[derive(Debug, Clone, PartialEq, Eq)]
pub enum NftStakeChangedHookMsg {
    Stake { addr: String, token_id: String },
    Unstake { addr: String, token_ids: Vec<String> },
}

/// One notification: the endpoint, and the event sent to it.
#[derive(Debug, Clone, PartialEq, Eq)]
pub struct HookMsg {
    pub contract_addr: String,
    pub msg: NftStakeChangedHookMsg,
}

/// What the token collection reports for a call: the tokens that the sender
/// holds (read for a registration) and the holder of the named token (read
/// for a reconciliation; `None` when the token no longer exists).
#[derive(Debug, Clone, PartialEq, Eq)]
pub struct Custody {
    pub owned_by_sender: Vec<String>,
    pub holder: Option<String>,
}

/// The answer to each query.
#[derive(Debug, Clone, PartialEq, Eq)]
pub enum QueryResponse {
    Dao(String),
    NftContract(String),
    Info(InfoResponse),
    Hooks(HooksResponse),
    RegisteredNft(RegisteredNftResponse),
    ListVoters(ListVotersResponse),
    TotalPowerAtHeight(TotalPowerAtHeightResponse),
    VotingPowerAtHeight(VotingPowerAtHeightResponse),
    Ownership(Ownership),
}

/// A voter's part of a module's state, as plain values.
#[derive(Debug, Clone, PartialEq, Eq)]
pub struct VoterState {
    pub addr: String,
    pub token: Option<String>,
    pub power: Vec<(u64, Option<u128>)>,
}

/// The whole state of a module, as plain values, for storing it.
#[derive(Debug, Clone, PartialEq, Eq)]
pub struct ModuleState {
    pub dao: String,
    pub nft_contract: String,
    pub ownership: Ownership,
    pub version: ContractVersion,
    pub tokens: Vec<(String, u128)>,
    pub voters: Vec<VoterState>,
    pub total: Vec<(u64, Option<u128>)>,
    pub hooks: Vec<String>,
    pub height: u64,
}

} // verus!
