use vstd::prelude::*;

verus! {

/// Why a change to the set of notified endpoints was refused.
#[derive(Debug, Clone, Copy, PartialEq, Eq, Structural)]
pub enum HookError {
    HookAlreadyRegistered {},
    HookNotRegistered {},
}

/// Why a change of the delegated owner, or a privileged call, was refused.
#[derive(Debug, Clone, Copy, PartialEq, Eq, Structural)]
pub enum OwnershipError {
    NoOwner,
    NotOwner,
    NotPendingOwner,
    TransferNotFound,
    TransferExpired,
}

/// Every way a call can fail. A failed call changes nothing.
#[derive(Debug, Clone, Copy, PartialEq, Eq, Structural)]
pub enum ContractError {
    HookError(HookError),
    Ownable(OwnershipError),
    Overflow {},
    AlreadyRegistered {},
    NotRegistered {},
    CannotRegister {},
    TooManyNfts {},
    NftAlreadyRegistered {},
}

impl HookError {
    /// The text reported to a caller.
    pub fn message(&self) -> &'static str {
        match self {
            HookError::HookAlreadyRegistered {} => "Given address already registered as a hook",
            HookError::HookNotRegistered {} => "Given address not registered as a hook",
        }
    }
}

impl OwnershipError {
    /// The text reported to a caller.
    pub fn message(&self) -> &'static str {
        match self {
            OwnershipError::NoOwner => "Contract ownership has been renounced",
            OwnershipError::NotOwner => "Caller is not the contract's current owner",
            OwnershipError::NotPendingOwner => "Caller is not the contract's pending owner",
            OwnershipError::TransferNotFound => "There isn't a pending ownership transfer",
            OwnershipError::TransferExpired => "A pending ownership transfer exists but it has expired",
        }
    }
}

impl ContractError {
    /// The text reported to a caller.
    pub fn message(&self) -> &'static str {
        match self {
            ContractError::HookError(e) => e.message(),
            ContractError::Ownable(e) => e.message(),
            ContractError::Overflow {} => "Cannot apply change: voting power out of range",
            ContractError::AlreadyRegistered {} => "You are already registered to vote",
            ContractError::NotRegistered {} => "You have not yet registered to vote",
            ContractError::CannotRegister {} => "You must own an NFT before registering to vote",
            ContractError::TooManyNfts {} => "You should not be able to own more than one NFT at a time",
            ContractError::NftAlreadyRegistered {} => "Your NFT was somehow registered by another voter",
        }
    }
}

} // verus!
