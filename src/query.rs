use vstd::prelude::*;
use crate::ledger::{entry_amount, find_addr, Holding};
use crate::math::{checked_sum, seq_sum};
use crate::rebalance::min;
use crate::treasury::Treasury;
use crate::types::{AllocationMeta, Config, Contract, TreasuryError};

verus! {

/// The manager's configuration.
pub fn config(treasury: &Treasury) -> (r: &Config)
    ensures
        *r == treasury.config,
{
    &treasury.config
}

/// What the treasury allows the manager to draw of a registered asset;
/// `allowance` is the figure the asset's contract reports.
pub fn pending_allowance(treasury: &Treasury, asset: &String, allowance: u128) -> (r: Result<u128, TreasuryError>)
    ensures
        r == (if treasury.is_asset(asset@) {
            Ok::<u128, TreasuryError>(allowance)
        } else {
            Err(TreasuryError::UnknownAsset)
        }),
{
    match find_addr(&treasury.asset_list, asset) {
        Some(_) => Ok(allowance),
        None => Err(TreasuryError::UnknownAsset),
    }
}

/// The manager's liquid balance of a registered asset, as its contract
/// reports it (`liquid`).
pub fn reserves(treasury: &Treasury, asset: &String, _holder: &String, liquid: u128) -> (r: Result<u128, TreasuryError>)
    ensures
        r == (if treasury.is_asset(asset@) {
            Ok::<u128, TreasuryError>(liquid)
        } else {
            Err(TreasuryError::UnknownAsset)
        }),
{
    match find_addr(&treasury.asset_list, asset) {
        Some(_) => Ok(liquid),
        None => Err(TreasuryError::UnknownAsset),
    }
}

/// The registered assets.
pub fn assets(treasury: &Treasury) -> (r: &Vec<String>)
    ensures
        r@ == treasury.asset_list@,
{
    &treasury.asset_list
}

fn copy_string(s: &String) -> (r: String)
    ensures
        r == *s,
{
    s.clone()
}

fn copy_meta(m: &AllocationMeta) -> (r: AllocationMeta)
    ensures
        r == *m,
{
    let nick = match &m.nick {
        Some(n) => Some(copy_string(n)),
        None => None,
    };
    AllocationMeta {
        nick,
        contract: Contract { address: copy_string(&m.contract.address), code_hash: copy_string(&m.contract.code_hash) },
        amount: m.amount,
        alloc_type: m.alloc_type,
        balance: m.balance,
        tolerance: m.tolerance,
    }
}

/// The allocations of an asset; none for an asset that is not registered.
pub fn allocations(treasury: &Treasury, asset: &String) -> (r: Vec<AllocationMeta>)
    requires
        treasury.wf(),
    ensures
        r@ == (if treasury.is_asset(asset@) {
            treasury.allocations_of(asset@)
        } else {
            Seq::empty()
        }),
{
    let mut out: Vec<AllocationMeta> = Vec::new();
    match find_addr(&treasury.asset_list, asset) {
        Some(k) => {
            let allocs = &treasury.allocations[k];
            let mut j: usize = 0;
            while j < allocs.len()
                invariant
                    j <= allocs.len(),
                    out@ =~= allocs@.take(j as int),
                decreases allocs.len() - j,
            {
                out.push(copy_meta(&allocs[j]));
                j = j + 1;
            }
            assert(out@ =~= allocs@);
        },
        None => {},
    }
    out
}

/// A holder's pending withdrawal of a registered asset.
pub fn unbonding(treasury: &Treasury, asset: &String, holder: &String) -> (r: Result<u128, TreasuryError>)
    requires
        treasury.wf(),
    ensures
        r == (if !treasury.is_asset(asset@) {
            Err(TreasuryError::UnknownAsset)
        } else if !treasury.is_holder(holder@) {
            Err(TreasuryError::UnknownHolder)
        } else {
            Ok::<u128, TreasuryError>(treasury.pending(holder@, asset@) as u128)
        }),
{
    if find_addr(&treasury.asset_list, asset).is_none() {
        return Err(TreasuryError::UnknownAsset);
    }
    match find_addr(&treasury.holders, holder) {
        Some(i) => Ok(entry_amount(&treasury.holdings[i].unbondings, asset)),
        None => Err(TreasuryError::UnknownHolder),
    }
}

/// What a holder could claim of a registered asset now: its pending
/// withdrawal, as far as the liquid balance (`liquid`) and what the
/// allocations report as ready to claim (`claimables`, in list order) cover.
pub fn claimable(
    treasury: &Treasury,
    asset: &String,
    holder: &String,
    liquid: u128,
    claimables: &Vec<u128>,
) -> (r: Result<u128, TreasuryError>)
    requires
        treasury.wf(),
    ensures
        r == (if !treasury.is_asset(asset@) {
            Err(TreasuryError::UnknownAsset)
        } else if liquid + seq_sum(claimables@) > u128::MAX {
            Err(TreasuryError::ArithmeticOverflow)
        } else if !treasury.is_holder(holder@) {
            Err(TreasuryError::UnknownHolder)
        } else {
            Ok::<u128, TreasuryError>(min(treasury.pending(holder@, asset@) as int, liquid + seq_sum(claimables@)) as u128)
        }),
{
    if find_addr(&treasury.asset_list, asset).is_none() {
        return Err(TreasuryError::UnknownAsset);
    }
    let ready = match checked_sum(claimables) {
        Some(s) => s,
        None => {
            return Err(TreasuryError::ArithmeticOverflow);
        },
    };
    if ready > u128::MAX - liquid {
        return Err(TreasuryError::ArithmeticOverflow);
    }
    let funds = liquid + ready;
    match find_addr(&treasury.holders, holder) {
        Some(i) => {
            let pending = entry_amount(&treasury.holdings[i].unbondings, asset);
            if funds > pending {
                Ok(pending)
            } else {
                Ok(funds)
            }
        },
        None => Err(TreasuryError::UnknownHolder),
    }
}

/// What could be released of a registered asset now: the liquid balance
/// (`liquid`) and what each allocation reports it can release
/// (`unbondables`), together.
pub fn unbondable(
    treasury: &Treasury,
    asset: &String,
    holder: &String,
    liquid: u128,
    unbondables: &Vec<u128>,
) -> (r: Result<u128, TreasuryError>)
    requires
        treasury.wf(),
    ensures
        r == (if !treasury.is_asset(asset@) {
            Err(TreasuryError::UnknownAsset)
        } else if !treasury.is_holder(holder@) {
            Err(TreasuryError::UnknownHolder)
        } else if liquid + seq_sum(unbondables@) > u128::MAX {
            Err(TreasuryError::ArithmeticOverflow)
        } else {
            Ok::<u128, TreasuryError>((liquid + seq_sum(unbondables@)) as u128)
        }),
{
    if find_addr(&treasury.asset_list, asset).is_none() {
        return Err(TreasuryError::UnknownAsset);
    }
    if find_addr(&treasury.holders, holder).is_none() {
        return Err(TreasuryError::UnknownHolder);
    }
    let ready = match checked_sum(unbondables) {
        Some(s) => s,
        None => {
            return Err(TreasuryError::ArithmeticOverflow);
        },
    };
    if ready > u128::MAX - liquid {
        return Err(TreasuryError::ArithmeticOverflow);
    }
    Ok(liquid + ready)
}

/// A holder's available balance of a registered asset.
pub fn balance(treasury: &Treasury, asset: &String, holder: &String) -> (r: Result<u128, TreasuryError>)
    requires
        treasury.wf(),
    ensures
        r == (if !treasury.is_asset(asset@) {
            Err(TreasuryError::UnknownAsset)
        } else if !treasury.is_holder(holder@) {
            Err(TreasuryError::UnknownHolder)
        } else {
            Ok::<u128, TreasuryError>(treasury.available(holder@, asset@) as u128)
        }),
{
    if find_addr(&treasury.asset_list, asset).is_none() {
        return Err(TreasuryError::UnknownAsset);
    }
    match find_addr(&treasury.holders, holder) {
        Some(i) => Ok(entry_amount(&treasury.holdings[i].balances, asset)),
        None => Err(TreasuryError::UnknownHolder),
    }
}

/// The holders, closed ones included.
pub fn holders(treasury: &Treasury) -> (r: &Vec<String>)
    ensures
        r@ == treasury.holders@,
{
    &treasury.holders
}

/// A holder's holding.
pub fn holding<'a>(treasury: &'a Treasury, holder: &String) -> (r: Result<&'a Holding, TreasuryError>)
    requires
        treasury.wf(),
    ensures
        match r {
            Ok(h) => treasury.is_holder(holder@) && *h == treasury.holding_of(holder@),
            Err(e) => !treasury.is_holder(holder@) && e == TreasuryError::UnknownHolder,
        },
{
    match find_addr(&treasury.holders, holder) {
        Some(i) => Ok(&treasury.holdings[i]),
        None => Err(TreasuryError::UnknownHolder),
    }
}

} // verus!
