use vstd::prelude::*;

verus! {

/// Address and code hash of a contract on the host chain.
#[derive(Clone, Debug)]
pub struct Contract {
    pub address: String,
    pub code_hash: String,
}

/// How an allocation's target is read.
#[derive(Clone, Copy, Debug, PartialEq, Eq, Structural)]
pub enum AllocationType {
    /// The target is a share of the investable total, scaled by 10^18.
    Portion,
    /// The target is an absolute amount of the asset.
    Amount,
}

/// A funding policy for one sub-account, as submitted by an administrator.
#[derive(Clone, Debug)]
pub struct Allocation {
    pub nick: Option<String>,
    pub contract: Contract,
    pub alloc_type: AllocationType,
    pub amount: u128,
    /// Allowed drift before the allocation is rebalanced, scaled by 10^18.
    pub tolerance: u128,
}

/// A stored allocation: the policy and the balance last reported by its
/// adapter.
#[derive(Clone, Debug)]
pub struct AllocationMeta {
    pub nick: Option<String>,
    pub contract: Contract,
    pub amount: u128,
    pub alloc_type: AllocationType,
    pub balance: u128,
    pub tolerance: u128,
}

/// Manager configuration: the authorization service and the treasury holder.
#[derive(Clone, Debug)]
pub struct Config {
    pub admin_auth: Contract,
    pub treasury: String,
}

/// A registered asset and the token metadata its contract reported.
#[derive(Clone, Debug)]
pub struct Asset {
    pub contract: Contract,
    pub name: String,
    pub symbol: String,
    pub decimals: u8,
}

/// Why a command was refused. A refused command changes nothing.
#[derive(Clone, Copy, Debug, PartialEq, Eq, Structural)]
pub enum TreasuryError {
    Unauthorized,
    UnknownAsset,
    UnknownHolder,
    InactiveHolding,
    HolderAlreadyExists,
    AllocationCapExceeded,
    InsufficientBalance,
    NoUnbondingForAsset,
    ArithmeticOverflow,
    ArithmeticUnderflow,
}

/// An amount moved to or from the allocation at `allocation`, a position in
/// the asset's allocation list.
#[derive(Clone, Copy, Debug, PartialEq, Eq, Structural)]
pub struct Movement {
    pub allocation: usize,
    pub amount: u128,
}

} // verus!
