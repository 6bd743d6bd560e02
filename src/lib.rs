//! Treasury fund allocation and rebalancing engine.
//!
//! The library keeps the ledger of a treasury manager: which assets it
//! knows, how each asset is split across yield-bearing allocations, and what
//! every holder has deposited or is waiting to withdraw. Values that only the
//! host can observe (token balances, allowances, adapter reports, the answer
//! of the authorization service) are handed in by the caller; the fund
//! movements that the ledger decides on are handed back as plain values.

mod ledger;
pub mod laws;
mod math;
mod order;
mod permission;
mod query;
mod rebalance;
mod settle;
mod shares;
mod treasury;
mod types;

pub use ledger::{Balance, Holding, Status};
pub use math::{checked_sum, ONE_HUNDRED_PERCENT};
pub use order::stable_order;
pub use permission::{is_valid_permission, validate_permissions, AdminAuthError};
pub use query::{
    allocations, assets, balance, claimable, config, holders, holding, pending_allowance, reserves,
    unbondable, unbonding,
};
pub use rebalance::{funding_order, plan_rebalance, update, RebalancePlan, Target};
pub use settle::{claim, unbond, ClaimOutcome, UnbondOutcome};
pub use shares::holding_shares;
pub use treasury::{
    add_holder, allocate, receive, remove_holder, try_register_asset, try_update_config, Treasury,
};
pub use types::{
    Allocation, AllocationMeta, AllocationType, Asset, Config, Contract, Movement, TreasuryError,
};
