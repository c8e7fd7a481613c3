//! Voting power for the members of a governing body, each of whom registers
//! one soul-bound token whose weight the body assigns. Voting power, per
//! voter and in total, can be queried as of any block height.

pub mod contract;
pub mod error;
pub mod history;
pub mod msg;
pub mod order;
pub mod ownership;

pub use contract::{VotingModule, CONTRACT_NAME, CONTRACT_VERSION, DEFAULT_LIMIT};
pub use error::{ContractError, HookError, OwnershipError};
pub use msg::{
    ContractVersion, Custody, ExecuteMsg, HookMsg, HooksResponse, InfoResponse, InstantiateMsg,
    ListVotersResponse, MigrateMsg, ModuleState, NftStakeChangedHookMsg, QueryMsg, QueryResponse,
    RegisteredNftResponse, TotalPowerAtHeightResponse, VoterState, VotingPowerAtHeightResponse,
};
pub use ownership::{Action, BlockInfo, Expiration, Ownership};
