use vstd::prelude::*;
use crate::ledger::{
    changed_only_at, checked_total_pending, entry_amount, find_addr, lemma_sum_bounds, lemma_sums_update, set_entry, Status,
};
use crate::order::{stable_order, stable_order_of};
use crate::rebalance::min;
use crate::treasury::Treasury;
use crate::types::{Movement, TreasuryError};

verus! {

/// What an unbond settled at once and what it asked of the allocations.
#[derive(Debug)]
pub struct UnbondOutcome {
    /// Paid to the holder straight from the liquid balance.
    pub settled: u128,
    /// Requests to the allocations' adapters to release funds.
    pub unbonds: Vec<Movement>,
    /// What neither the liquid balance nor the allocations could cover.
    pub remaining: u128,
}

/// What a claim pulled from the allocations and paid to the holder.
#[derive(Debug)]
pub struct ClaimOutcome {
    /// Positions of the allocations asked to pay out what they hold ready.
    pub claims: Vec<usize>,
    /// What those allocations report as ready to claim, together.
    pub claimed: u128,
    /// Paid to the holder.
    pub settled: u128,
}

/// Asks the allocations at the positions `order`, one after another, for what
/// each can release (`unbondable`) until `need` is covered. Gives the
/// requests and what is still uncovered.
pub open spec fn drain(unbondable: Seq<u128>, order: Seq<usize>, need: nat) -> (Seq<Movement>, nat)
    decreases order.len(),
{
    if order.len() == 0 {
        (Seq::empty(), need)
    } else {
        let (requests, rest) = drain(unbondable, order.drop_last(), need);
        let k = order.last();
        let take = min(unbondable[k as int] as int, rest as int);
        (
            if take > 0 {
                requests.push(Movement { allocation: k, amount: take as u128 })
            } else {
                requests
            },
            (rest - take) as nat,
        )
    }
}

/// Goes through the allocations in list order while `shortfall` is not
/// covered, claiming from each one that has something ready. Gives the
/// positions claimed from, the shortfall left and the amount claimed.
pub open spec fn claim_from(claimable: Seq<u128>, n: nat, shortfall: nat) -> (Seq<usize>, nat, nat)
    decreases n,
{
    if n == 0 {
        (Seq::empty(), shortfall, 0)
    } else {
        let (claims, rest, claimed) = claim_from(claimable, (n - 1) as nat, shortfall);
        let c = claimable[n - 1];
        if rest > 0 && c > 0 {
            (claims.push((n - 1) as usize), (if c >= rest { 0 } else { rest - c }) as nat, claimed + c as nat)
        } else {
            (claims, rest, claimed)
        }
    }
}

/// The liquid balance that is not reserved for other holders' withdrawals.
pub open spec fn free_reserves(liquid: int, others: int) -> int {
    if liquid > others {
        liquid - others
    } else {
        0
    }
}

fn drain_allocations(unbondable: &Vec<u128>, order: &Vec<usize>, need: u128) -> (r: (Vec<Movement>, u128))
    requires
        forall|k: int| 0 <= k < order.len() ==> #[trigger] order@[k] < unbondable.len(),
    ensures
        (r.0@, r.1 as nat) == drain(unbondable@, order@, need as nat),
{
    let mut requests: Vec<Movement> = Vec::new();
    let mut rest = need;
    let mut i: usize = 0;
    while i < order.len()
        invariant
            i <= order.len(),
            forall|k: int| 0 <= k < order.len() ==> #[trigger] order@[k] < unbondable.len(),
            (requests@, rest as nat) == drain(unbondable@, order@.take(i as int), need as nat),
        decreases order.len() - i,
    {
        assert(order@.take(i + 1).drop_last() =~= order@.take(i as int));
        let k = order[i];
        let take = if unbondable[k] <= rest {
            unbondable[k]
        } else {
            rest
        };
        if take > 0 {
            requests.push(Movement { allocation: k, amount: take });
        }
        rest = rest - take;
        i = i + 1;
    }
    assert(order@.take(order.len() as int) =~= order@);
    (requests, rest)
}

fn claim_allocations(claimable: &Vec<u128>, shortfall: u128) -> (r: (Vec<usize>, Option<u128>))
    ensures
        r.0@ == claim_from(claimable@, claimable.len() as nat, shortfall as nat).0,
        r.1 == (if claim_from(claimable@, claimable.len() as nat, shortfall as nat).2 <= u128::MAX {
            Some(claim_from(claimable@, claimable.len() as nat, shortfall as nat).2 as u128)
        } else {
            None
        }),
{
    let mut claims: Vec<usize> = Vec::new();
    let mut rest = shortfall;
    let mut claimed: u128 = 0;
    let mut fits = true;
    let mut i: usize = 0;
    while i < claimable.len()
        invariant
            i <= claimable.len(),
            claims@ == claim_from(claimable@, i as nat, shortfall as nat).0,
            rest == claim_from(claimable@, i as nat, shortfall as nat).1,
            fits ==> claimed == claim_from(claimable@, i as nat, shortfall as nat).2,
            !fits ==> claim_from(claimable@, i as nat, shortfall as nat).2 > u128::MAX,
        decreases claimable.len() - i,
    {
        let c = claimable[i];
        if rest > 0 && c > 0 {
            claims.push(i);
            rest = if c >= rest {
                0
            } else {
                rest - c
            };
            if fits {
                if c > u128::MAX - claimed {
                    fits = false;
                } else {
                    claimed = claimed + c;
                }
            }
        }
        i = i + 1;
    }
    if fits {
        (claims, Some(claimed))
    } else {
        (claims, None)
    }
}

impl Treasury {
    /// Who a holder-scoped command acts for: the treasury holder when an
    /// authorized administrator sends it, the sender otherwise.
    pub open spec fn acting_holder(&self, sender: Seq<char>, authorized: bool) -> Seq<char> {
        if authorized {
            self.config.treasury@
        } else {
            sender
        }
    }
}

/// Moves `amount` of a holder's available balance of `asset` to its
/// pending withdrawals, then settles what it can.
///
/// `liquid` is the manager's liquid balance of the asset. The part of it
/// not reserved for other holders' pending withdrawals is paid out at
/// once, up to `amount`. The rest is requested from the allocations,
/// smallest reported balance (`adapter_balances`) first, each up to what
/// its adapter can release (`unbondables`); it stays pending until
/// claimed.
pub fn unbond(
    treasury: &mut Treasury,
    sender: &String,
    authorized: bool,
    asset: &String,
    amount: u128,
    liquid: u128,
    adapter_balances: &Vec<u128>,
    unbondables: &Vec<u128>,
) -> (r: Result<UnbondOutcome, TreasuryError>)
    requires
        old(treasury).wf(),
        old(treasury).is_asset(asset@) ==> adapter_balances.len() == old(treasury).allocations_of(asset@).len(),
        unbondables.len() == adapter_balances.len(),
    ensures
        final(treasury).wf(),
        r is Err ==> *final(treasury) == *old(treasury),
        ({
            let who = old(treasury).acting_holder(sender@, authorized);
            let available = old(treasury).available(who, asset@);
            let pending = old(treasury).pending(who, asset@);
            let all_pending = old(treasury).total_pending(asset@);
            if !old(treasury).is_asset(asset@) {
                r == Err::<UnbondOutcome, _>(TreasuryError::UnknownAsset)
            } else if !old(treasury).is_holder(who) {
                r == Err::<UnbondOutcome, _>(TreasuryError::Unauthorized)
            } else if old(treasury).holding_of(who).status != Status::Active {
                r == Err::<UnbondOutcome, _>(TreasuryError::InactiveHolding)
            } else if available < amount {
                r == Err::<UnbondOutcome, _>(TreasuryError::InsufficientBalance)
            } else if all_pending > u128::MAX || pending + amount > u128::MAX {
                r == Err::<UnbondOutcome, _>(TreasuryError::ArithmeticOverflow)
            } else {
                let settled = min(free_reserves(liquid as int, all_pending - pending), amount as int);
                let order = stable_order_of(adapter_balances@);
                let (requests, remaining) = drain(unbondables@, order, (amount - settled) as nat);
                &&& r matches Ok(o) && o.settled == settled && o.unbonds@ == requests
                    && o.remaining == remaining
                &&& final(treasury).same_but_holding(old(treasury), old(treasury).holder_index(who))
                &&& changed_only_at(old(treasury).holding_of(who).balances@, final(treasury).holding_of(who).balances@, asset@, (available - amount) as nat)
                &&& changed_only_at(old(treasury).holding_of(who).unbondings@, final(treasury).holding_of(who).unbondings@, asset@, (pending + amount - settled) as nat)
                &&& final(treasury).holding_of(who).status == Status::Active
                &&& final(treasury).total_available(asset@) == old(treasury).total_available(asset@) - amount
                &&& final(treasury).total_pending(asset@) == all_pending + amount - settled
                &&& final(treasury).holders_total(asset@) == old(treasury).holders_total(asset@) - settled
            }
        }),
{
    let who = if authorized {
        &treasury.config.treasury
    } else {
        sender
    };
    if find_addr(&treasury.asset_list, asset).is_none() {
        return Err(TreasuryError::UnknownAsset);
    }
    let i = match find_addr(&treasury.holders, who) {
        Some(i) => i,
        None => {
            return Err(TreasuryError::Unauthorized);
        },
    };
    if treasury.holdings[i].status != Status::Active {
        return Err(TreasuryError::InactiveHolding);
    }
    let available = entry_amount(&treasury.holdings[i].balances, asset);
    if available < amount {
        return Err(TreasuryError::InsufficientBalance);
    }
    let all_pending = match checked_total_pending(&treasury.holdings, asset) {
        Some(v) => v,
        None => {
            return Err(TreasuryError::ArithmeticOverflow);
        },
    };
    let pending = entry_amount(&treasury.holdings[i].unbondings, asset);
    if pending > u128::MAX - amount {
        return Err(TreasuryError::ArithmeticOverflow);
    }
    proof {
        lemma_sum_bounds(treasury.holdings@, i as int, asset@);
    }
    let others = all_pending - pending;
    let reserves = if liquid > others {
        liquid - others
    } else {
        0
    };
    let settled = if reserves < amount {
        reserves
    } else {
        amount
    };
    let ghost prior = *treasury;
    let ghost who_v = who@;
    set_entry(&mut treasury.holdings[i].balances, asset, available - amount);
    set_entry(&mut treasury.holdings[i].unbondings, asset, pending + amount - settled);
    proof {
        lemma_sums_update(prior.holdings@, i as int, treasury.holdings@[i as int], asset@);
        assert(treasury.holdings@ == prior.holdings@.update(i as int, treasury.holdings@[i as int]));
    }
    let order = stable_order(adapter_balances);
    let (unbonds, remaining) = drain_allocations(unbondables, &order, amount - settled);
    Ok(UnbondOutcome { settled, unbonds, remaining })
}

/// Pays a holder's pending withdrawal of `asset` as far as funds allow.
///
/// `liquid` is the manager's liquid balance of the asset and `claimables`
/// what each allocation of the asset, in list order, reports as ready to
/// claim. When the pending amount exceeds `liquid`, the allocations are
/// claimed from in list order until the shortfall is covered. The holder
/// is paid the pending amount, or `liquid` plus what was claimed if that
/// is less.
pub fn claim(
    treasury: &mut Treasury,
    sender: &String,
    authorized: bool,
    asset: &String,
    liquid: u128,
    claimables: &Vec<u128>,
) -> (r: Result<ClaimOutcome, TreasuryError>)
    requires
        old(treasury).wf(),
        old(treasury).is_asset(asset@) ==> claimables.len() == old(treasury).allocations_of(asset@).len(),
    ensures
        final(treasury).wf(),
        r is Err ==> *final(treasury) == *old(treasury),
        ({
            let who = old(treasury).acting_holder(sender@, authorized);
            let pending = old(treasury).pending(who, asset@);
            let shortfall = if pending > liquid { pending - liquid } else { 0 };
            let (claims, left, claimed) = claim_from(claimables@, claimables.len() as nat, shortfall as nat);
            if !old(treasury).is_asset(asset@) {
                r == Err::<ClaimOutcome, _>(TreasuryError::UnknownAsset)
            } else if !old(treasury).is_holder(who) {
                r == Err::<ClaimOutcome, _>(TreasuryError::Unauthorized)
            } else if pending == 0 {
                r == Err::<ClaimOutcome, _>(TreasuryError::NoUnbondingForAsset)
            } else if claimed > u128::MAX || liquid + claimed > u128::MAX {
                r == Err::<ClaimOutcome, _>(TreasuryError::ArithmeticOverflow)
            } else {
                let settled = min(pending as int, liquid + claimed);
                &&& r matches Ok(o) && o.claims@ == claims && o.claimed == claimed && o.settled == settled
                &&& final(treasury).same_but_holding(old(treasury), old(treasury).holder_index(who))
                &&& final(treasury).holding_of(who).balances@ == old(treasury).holding_of(who).balances@
                &&& changed_only_at(old(treasury).holding_of(who).unbondings@, final(treasury).holding_of(who).unbondings@, asset@, (pending - settled) as nat)
                &&& final(treasury).holding_of(who).status == old(treasury).holding_of(who).status
                &&& final(treasury).total_available(asset@) == old(treasury).total_available(asset@)
                &&& final(treasury).total_pending(asset@) == old(treasury).total_pending(asset@) - settled
                &&& final(treasury).holders_total(asset@) == old(treasury).holders_total(asset@) - settled
            }
        }),
{
    let who = if authorized {
        &treasury.config.treasury
    } else {
        sender
    };
    if find_addr(&treasury.asset_list, asset).is_none() {
        return Err(TreasuryError::UnknownAsset);
    }
    let i = match find_addr(&treasury.holders, who) {
        Some(i) => i,
        None => {
            return Err(TreasuryError::Unauthorized);
        },
    };
    let pending = entry_amount(&treasury.holdings[i].unbondings, asset);
    if pending == 0 {
        return Err(TreasuryError::NoUnbondingForAsset);
    }
    let shortfall = if pending > liquid {
        pending - liquid
    } else {
        0
    };
    let (claims, claimed) = claim_allocations(claimables, shortfall);
    let claimed = match claimed {
        Some(c) => c,
        None => {
            return Err(TreasuryError::ArithmeticOverflow);
        },
    };
    if claimed > u128::MAX - liquid {
        return Err(TreasuryError::ArithmeticOverflow);
    }
    let funds = liquid + claimed;
    let settled = if pending > funds {
        funds
    } else {
        pending
    };
    let ghost prior = *treasury;
    set_entry(&mut treasury.holdings[i].unbondings, asset, pending - settled);
    proof {
        lemma_sums_update(prior.holdings@, i as int, treasury.holdings@[i as int], asset@);
        assert(treasury.holdings@ == prior.holdings@.update(i as int, treasury.holdings@[i as int]));
    }
    Ok(ClaimOutcome { claims, claimed, settled })
}

} // verus!
