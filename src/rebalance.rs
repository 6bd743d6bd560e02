use vstd::prelude::*;
use crate::ledger::{
    changed_only_at, checked_total_available, checked_total_pending, entry_amount, find_addr,
    lemma_addr_index, lemma_sum_bounds, lemma_sums_update, set_entry,
};
use crate::math::{lemma_seq_sum_prefix, multiply_ratio, ratio, seq_sum, ONE_HUNDRED_PERCENT};
use crate::treasury::Treasury;
use crate::types::{AllocationMeta, AllocationType, Movement, TreasuryError};

verus! {

/// One allocation as the planner sees it: its policy and the balance its
/// adapter reports.
#[derive(Clone, Copy, Debug, PartialEq, Eq, Structural)]
pub struct Target {
    pub alloc_type: AllocationType,
    pub amount: u128,
    pub tolerance: u128,
    pub balance: u128,
}

/// The fund movements decided by one rebalance.
#[derive(Debug)]
pub struct RebalancePlan {
    /// Positions of the allocations in the order they were funded.
    pub order: Vec<usize>,
    /// Transfers from the manager's own liquid balance.
    pub sends: Vec<Movement>,
    /// Transfers drawn on the treasury's allowance.
    pub send_froms: Vec<Movement>,
    /// Amounts pulled back from over-funded allocations.
    pub unbonds: Vec<Movement>,
    /// Liquid balance left after the transfers.
    pub balance_left: u128,
    /// Allowance left after the transfers.
    pub allowance_left: u128,
}

/// Where the funding waterfall stands after some allocations.
pub struct PlanState {
    pub balance: nat,
    pub allowance: nat,
    /// Sum of the `Amount` targets met so far.
    pub committed: nat,
    pub sends: Seq<Movement>,
    pub send_froms: Seq<Movement>,
    pub unbonds: Seq<Movement>,
}

/// The waterfall before any allocation.
pub open spec fn initial_state(balance: nat, allowance: nat) -> PlanState {
    PlanState {
        balance,
        allowance,
        committed: 0,
        sends: Seq::empty(),
        send_froms: Seq::empty(),
        unbonds: Seq::empty(),
    }
}

/// The level an allocation should be funded to. `Portion` targets share
/// what is left of `total` once the `Amount` targets met so far are taken.
pub open spec fn desired_amount(t: Target, total: int, committed: int) -> int {
    if t.alloc_type == AllocationType::Amount {
        t.amount as int
    } else if total > committed {
        ratio(t.amount as int, total - committed, ONE_HUNDRED_PERCENT as int)
    } else {
        0
    }
}

/// The drift from the desired level that is tolerated.
pub open spec fn threshold_of(t: Target, desired: int) -> int {
    ratio(desired, t.tolerance as int, ONE_HUNDRED_PERCENT as int)
}

pub open spec fn min(a: int, b: int) -> int {
    if a <= b {
        a
    } else {
        b
    }
}

/// One allocation's turn in the waterfall, the allocation being at position
/// `k`; `None` when an amount does not fit in 128 bits.
///
/// An allocation short of its desired level by more than the threshold is
/// funded from the liquid balance, then from the allowance, each as far as
/// it goes. One holding more than the threshold above it has the surplus
/// pulled back. Any other is left alone.
pub open spec fn plan_step(s: PlanState, t: Target, k: usize, total: int) -> Option<PlanState> {
    let committed = if t.alloc_type == AllocationType::Amount {
        s.committed + t.amount
    } else {
        s.committed as int
    };
    let desired = desired_amount(t, total, s.committed as int);
    let threshold = threshold_of(t, desired);
    if committed > u128::MAX || desired > u128::MAX || threshold > u128::MAX {
        None
    } else if t.balance < desired && desired - t.balance > threshold {
        let gap = desired - t.balance;
        let from_balance = min(gap, s.balance as int);
        let from_allowance = min(gap - from_balance, s.allowance as int);
        Some(
            PlanState {
                balance: (s.balance - from_balance) as nat,
                allowance: (s.allowance - from_allowance) as nat,
                committed: committed as nat,
                sends: if from_balance > 0 {
                    s.sends.push(Movement { allocation: k, amount: from_balance as u128 })
                } else {
                    s.sends
                },
                send_froms: if from_allowance > 0 {
                    s.send_froms.push(Movement { allocation: k, amount: from_allowance as u128 })
                } else {
                    s.send_froms
                },
                unbonds: s.unbonds,
            },
        )
    } else if t.balance > desired && t.balance - desired > threshold {
        Some(
            PlanState {
                balance: s.balance,
                allowance: s.allowance,
                committed: committed as nat,
                sends: s.sends,
                send_froms: s.send_froms,
                unbonds: s.unbonds.push(Movement { allocation: k, amount: (t.balance - desired) as u128 }),
            },
        )
    } else {
        Some(
            PlanState {
                balance: s.balance,
                allowance: s.allowance,
                committed: committed as nat,
                sends: s.sends,
                send_froms: s.send_froms,
                unbonds: s.unbonds,
            },
        )
    }
}

/// The waterfall run over the allocations at the positions `order`.
pub open spec fn plan_fold(targets: Seq<Target>, order: Seq<usize>, init: PlanState, total: int) -> Option<PlanState>
    decreases order.len(),
{
    if order.len() == 0 {
        Some(init)
    } else {
        match plan_fold(targets, order.drop_last(), init, total) {
            Some(s) => plan_step(s, targets[order.last() as int], order.last(), total),
            None => None,
        }
    }
}

/// The positions among the first `n` whose allocation has type `ty`, in
/// list order.
pub open spec fn positions_of(targets: Seq<Target>, ty: AllocationType, n: nat) -> Seq<usize>
    decreases n,
{
    if n == 0 {
        Seq::empty()
    } else {
        let earlier = positions_of(targets, ty, (n - 1) as nat);
        if targets[n - 1].alloc_type == ty {
            earlier.push((n - 1) as usize)
        } else {
            earlier
        }
    }
}

/// The order in which allocations are funded: every `Amount` allocation
/// before every `Portion` one, each group in list order.
pub open spec fn funding_order_of(targets: Seq<Target>) -> Seq<usize> {
    positions_of(targets, AllocationType::Amount, targets.len())
        + positions_of(targets, AllocationType::Portion, targets.len())
}

impl RebalancePlan {
    /// The plan agrees with a final waterfall state.
    pub open spec fn matches(&self, s: PlanState) -> bool {
        &&& self.sends@ == s.sends
        &&& self.send_froms@ == s.send_froms
        &&& self.unbonds@ == s.unbonds
        &&& self.balance_left == s.balance
        &&& self.allowance_left == s.allowance
    }
}

/// The order in which allocations are funded: every `Amount` allocation
/// before every `Portion` one, each group in list order.
pub fn funding_order(targets: &Vec<Target>) -> (order: Vec<usize>)
    ensures
        order@ == funding_order_of(targets@),
{
    let mut fixed: Vec<usize> = Vec::new();
    let mut shares: Vec<usize> = Vec::new();
    let mut j: usize = 0;
    while j < targets.len()
        invariant
            j <= targets.len(),
            fixed@ == positions_of(targets@, AllocationType::Amount, j as nat),
            shares@ == positions_of(targets@, AllocationType::Portion, j as nat),
        decreases targets.len() - j,
    {
        if targets[j].alloc_type == AllocationType::Amount {
            fixed.push(j);
        } else {
            shares.push(j);
        }
        j = j + 1;
    }
    fixed.append(&mut shares);
    fixed
}

/// The funding waterfall as it runs: sources left, `Amount` targets met so
/// far, and the movements decided.
struct Waterfall {
    balance: u128,
    allowance: u128,
    committed: u128,
    sends: Vec<Movement>,
    send_froms: Vec<Movement>,
    unbonds: Vec<Movement>,
}

impl Waterfall {
    spec fn state(&self) -> PlanState {
        PlanState {
            balance: self.balance as nat,
            allowance: self.allowance as nat,
            committed: self.committed as nat,
            sends: self.sends@,
            send_froms: self.send_froms@,
            unbonds: self.unbonds@,
        }
    }

    fn step(&mut self, t: Target, k: usize, total: u128) -> (ok: bool)
        ensures
            plan_step(old(self).state(), t, k, total as int) == (if ok {
                Some(final(self).state())
            } else {
                None::<PlanState>
            }),
    {
        let committed = if t.alloc_type == AllocationType::Amount {
            if t.amount > u128::MAX - self.committed {
                return false;
            }
            self.committed + t.amount
        } else {
            self.committed
        };
        let desired = if t.alloc_type == AllocationType::Amount {
            t.amount
        } else if total > self.committed {
            match multiply_ratio(t.amount, total - self.committed, ONE_HUNDRED_PERCENT) {
                Some(d) => d,
                None => {
                    return false;
                },
            }
        } else {
            0
        };
        let threshold = match multiply_ratio(desired, t.tolerance, ONE_HUNDRED_PERCENT) {
            Some(h) => h,
            None => {
                return false;
            },
        };
        self.committed = committed;
        if t.balance < desired && desired - t.balance > threshold {
            let gap = desired - t.balance;
            let from_balance = if gap <= self.balance {
                gap
            } else {
                self.balance
            };
            let rest = gap - from_balance;
            let from_allowance = if rest <= self.allowance {
                rest
            } else {
                self.allowance
            };
            self.balance = self.balance - from_balance;
            self.allowance = self.allowance - from_allowance;
            if from_balance > 0 {
                self.sends.push(Movement { allocation: k, amount: from_balance });
            }
            if from_allowance > 0 {
                self.send_froms.push(Movement { allocation: k, amount: from_allowance });
            }
        } else if t.balance > desired && t.balance - desired > threshold {
            self.unbonds.push(Movement { allocation: k, amount: t.balance - desired });
        }
        true
    }
}

/// Runs the funding waterfall over the allocations at the positions
/// `order`, starting with the liquid `balance` and the treasury's
/// `allowance`; `total` is the value to be spread over the allocations.
pub fn plan_rebalance(
    targets: &Vec<Target>,
    order: &Vec<usize>,
    balance: u128,
    allowance: u128,
    total: u128,
) -> (r: Result<RebalancePlan, TreasuryError>)
    requires
        forall|k: int| 0 <= k < order.len() ==> #[trigger] order@[k] < targets.len(),
    ensures
        match plan_fold(targets@, order@, initial_state(balance as nat, allowance as nat), total as int) {
            Some(s) => r matches Ok(p) && p.matches(s) && p.order@ == order@,
            None => r == Err::<RebalancePlan, _>(TreasuryError::ArithmeticOverflow),
        },
{
    let mut w = Waterfall {
        balance,
        allowance,
        committed: 0,
        sends: Vec::new(),
        send_froms: Vec::new(),
        unbonds: Vec::new(),
    };
    let ghost init = initial_state(balance as nat, allowance as nat);
    assert(w.state() == init);
    let mut i: usize = 0;
    while i < order.len()
        invariant
            i <= order.len(),
            forall|k: int| 0 <= k < order.len() ==> #[trigger] order@[k] < targets.len(),
            init == initial_state(balance as nat, allowance as nat),
            plan_fold(targets@, order@.take(i as int), init, total as int) == Some(w.state()),
        decreases order.len() - i,
    {
        assert(order@.take(i + 1).drop_last() =~= order@.take(i as int));
        let k = order[i];
        assert(order@.take(i + 1).last() == k);
        if !w.step(targets[k], k, total) {
            proof {
                assert(plan_fold(targets@, order@.take(i + 1), init, total as int) is None);
                lemma_fold_stays_none(targets@, order@, init, total as int, i + 1);
            }
            return Err(TreasuryError::ArithmeticOverflow);
        }
        i = i + 1;
    }
    assert(order@.take(order.len() as int) =~= order@);
    let mut copy: Vec<usize> = Vec::new();
    let mut j: usize = 0;
    while j < order.len()
        invariant
            j <= order.len(),
            copy@ =~= order@.take(j as int),
        decreases order.len() - j,
    {
        copy.push(order[j]);
        j = j + 1;
    }
    assert(copy@ =~= order@);
    Ok(RebalancePlan {
        order: copy,
        sends: w.sends,
        send_froms: w.send_froms,
        unbonds: w.unbonds,
        balance_left: w.balance,
        allowance_left: w.allowance,
    })
}

/// The planner's view of an asset's allocations, with the balances their
/// adapters report.
pub open spec fn targets_of(allocs: Seq<AllocationMeta>, balances: Seq<u128>) -> Seq<Target> {
    Seq::new(
        allocs.len(),
        |j: int|
            Target {
                alloc_type: allocs[j].alloc_type,
                amount: allocs[j].amount,
                tolerance: allocs[j].tolerance,
                balance: balances[j],
            },
    )
}

/// The waterfall over an asset's allocations in funding order.
pub open spec fn rebalance_fold(targets: Seq<Target>, balance: nat, allowance: nat, total: int) -> Option<PlanState> {
    plan_fold(targets, funding_order_of(targets), initial_state(balance, allowance), total)
}

/// Builds the planner's targets and adds up the reported balances; `None`
/// when the sum does not fit in 128 bits.
fn gather_targets(allocs: &Vec<AllocationMeta>, balances: &Vec<u128>) -> (r: (Vec<Target>, Option<u128>))
    requires
        balances.len() == allocs.len(),
    ensures
        r.0@ == targets_of(allocs@, balances@),
        r.1 == (if seq_sum(balances@) <= u128::MAX {
            Some(seq_sum(balances@) as u128)
        } else {
            None
        }),
{
    let mut targets: Vec<Target> = Vec::new();
    let mut sum: u128 = 0;
    let mut fits = true;
    let mut j: usize = 0;
    while j < allocs.len()
        invariant
            balances.len() == allocs.len(),
            j <= allocs.len(),
            targets@ =~= targets_of(allocs@, balances@).take(j as int),
            fits ==> sum == seq_sum(balances@.take(j as int)),
            !fits ==> seq_sum(balances@) > u128::MAX,
        decreases allocs.len() - j,
    {
        assert(balances@.take(j + 1).drop_last() =~= balances@.take(j as int));
        targets.push(
            Target {
                alloc_type: allocs[j].alloc_type,
                amount: allocs[j].amount,
                tolerance: allocs[j].tolerance,
                balance: balances[j],
            },
        );
        if fits {
            if balances[j] > u128::MAX - sum {
                proof {
                    lemma_seq_sum_prefix(balances@, j + 1);
                }
                fits = false;
            } else {
                sum = sum + balances[j];
            }
        }
        j = j + 1;
    }
    assert(targets@ =~= targets_of(allocs@, balances@));
    assert(balances@.take(allocs.len() as int) =~= balances@);
    if fits {
        (targets, Some(sum))
    } else {
        (targets, None)
    }
}

/// Every position `positions_of` gives is one of the first `n`, and holds
/// an allocation of type `ty`; the positions rise strictly.
pub proof fn lemma_positions_of(targets: Seq<Target>, ty: AllocationType, n: nat)
    requires
        n <= targets.len(),
        targets.len() <= usize::MAX,
    ensures
        forall|m: int|
            0 <= m < positions_of(targets, ty, n).len() ==> #[trigger] positions_of(targets, ty, n)[m] < n
                && targets[positions_of(targets, ty, n)[m] as int].alloc_type == ty,
        forall|m1: int, m2: int|
            0 <= m1 < m2 < positions_of(targets, ty, n).len() ==> #[trigger] positions_of(targets, ty, n)[m1]
                < #[trigger] positions_of(targets, ty, n)[m2],
    decreases n,
{
    if n > 0 {
        lemma_positions_of(targets, ty, (n - 1) as nat);
    }
}

/// The funding order names each position of the list at most once.
pub proof fn lemma_funding_order_bounded(targets: Seq<Target>)
    requires
        targets.len() <= usize::MAX,
    ensures
        forall|m: int|
            0 <= m < funding_order_of(targets).len() ==> #[trigger] funding_order_of(targets)[m] < targets.len(),
        forall|m1: int, m2: int|
            0 <= m1 < funding_order_of(targets).len() && 0 <= m2 < funding_order_of(targets).len() && m1 != m2
                ==> #[trigger] funding_order_of(targets)[m1] != #[trigger] funding_order_of(targets)[m2],
{
    let a = positions_of(targets, AllocationType::Amount, targets.len());
    let b = positions_of(targets, AllocationType::Portion, targets.len());
    lemma_positions_of(targets, AllocationType::Amount, targets.len());
    lemma_positions_of(targets, AllocationType::Portion, targets.len());
    let o = funding_order_of(targets);
    assert forall|m: int| 0 <= m < o.len() implies #[trigger] o[m] < targets.len() by {
        if m < a.len() {
            assert(o[m] == a[m]);
        } else {
            assert(o[m] == b[m - a.len()]);
        }
    }
    assert forall|m1: int, m2: int|
        0 <= m1 < o.len() && 0 <= m2 < o.len() && m1 != m2 implies #[trigger] o[m1] != #[trigger] o[m2] by {
        if m1 < a.len() && m2 < a.len() {
            assert(o[m1] == a[m1] && o[m2] == a[m2]);
            if m1 < m2 {
                assert(a[m1] < a[m2]);
            } else {
                assert(a[m2] < a[m1]);
            }
        } else if m1 >= a.len() && m2 >= a.len() {
            assert(o[m1] == b[m1 - a.len()] && o[m2] == b[m2 - a.len()]);
            if m1 < m2 {
                assert(b[m1 - a.len()] < b[m2 - a.len()]);
            } else {
                assert(b[m2 - a.len()] < b[m1 - a.len()]);
            }
        } else if m1 < a.len() {
            assert(o[m1] == a[m1] && o[m2] == b[m2 - a.len()]);
            assert(targets[a[m1] as int].alloc_type == AllocationType::Amount);
            assert(targets[b[m2 - a.len()] as int].alloc_type == AllocationType::Portion);
        } else {
            assert(o[m2] == a[m2] && o[m1] == b[m1 - a.len()]);
            assert(targets[a[m2] as int].alloc_type == AllocationType::Amount);
            assert(targets[b[m1 - a.len()] as int].alloc_type == AllocationType::Portion);
        }
    }
}

/// Once the waterfall fails, running it further fails too.
proof fn lemma_fold_stays_none(targets: Seq<Target>, order: Seq<usize>, init: PlanState, total: int, n: int)
    requires
        0 <= n <= order.len(),
        plan_fold(targets, order.take(n), init, total) is None,
    ensures
        plan_fold(targets, order, init, total) is None,
    decreases order.len() - n,
{
    if n < order.len() {
        assert(order.take(n + 1).drop_last() =~= order.take(n));
        lemma_fold_stays_none(targets, order, init, total, n + 1);
    } else {
        assert(order.take(n) =~= order);
    }
}

/// Rebalances an asset across its allocations.
///
/// `adapter_balances` holds, for each allocation of the asset in list
/// order, the balance its adapter reports; `balance` is the manager's
/// liquid balance of the asset and `allowance` what the treasury allows
/// it to draw. The value held for the asset, less what holders wait to
/// withdraw, is spread over the allocations by the funding waterfall.
/// The treasury holder is then credited that value less what the holders
/// had available (debited, when it is negative), so that the holders'
/// available balances add up to exactly that value. What is drawn on the
/// allowance this round is not counted in that value; it shows up in the
/// allocations' reports, and so in the treasury's credit, on a later round.
pub fn update(
    treasury: &mut Treasury,
    asset: &String,
    adapter_balances: &Vec<u128>,
    balance: u128,
    allowance: u128,
) -> (r: Result<RebalancePlan, TreasuryError>)
    requires
        old(treasury).wf(),
        old(treasury).is_asset(asset@) ==> adapter_balances.len() == old(treasury).allocations_of(asset@).len(),
    ensures
        final(treasury).wf(),
        r is Err ==> *final(treasury) == *old(treasury),
        !old(treasury).is_asset(asset@) ==> r == Err::<RebalancePlan, _>(TreasuryError::UnknownAsset),
        old(treasury).is_asset(asset@) ==> {
            let reported = seq_sum(adapter_balances@);
            let value = reported + balance;
            let unbonding = old(treasury).total_pending(asset@);
            let principal = old(treasury).total_available(asset@);
            let investable = value - unbonding;
            let targets = targets_of(old(treasury).allocations_of(asset@), adapter_balances@);
            let sink = old(treasury).config.treasury@;
            if reported > u128::MAX || unbonding > u128::MAX || principal > u128::MAX || value > u128::MAX {
                r == Err::<RebalancePlan, _>(TreasuryError::ArithmeticOverflow)
            } else if value < unbonding {
                r == Err::<RebalancePlan, _>(TreasuryError::ArithmeticUnderflow)
            } else if investable + allowance > u128::MAX {
                r == Err::<RebalancePlan, _>(TreasuryError::ArithmeticOverflow)
            } else {
                match rebalance_fold(targets, balance as nat, allowance as nat, investable + allowance) {
                    None => r == Err::<RebalancePlan, _>(TreasuryError::ArithmeticOverflow),
                    Some(s) => if old(treasury).available(sink, asset@) + investable < principal {
                        r == Err::<RebalancePlan, _>(TreasuryError::ArithmeticUnderflow)
                    } else {
                        &&& r matches Ok(p) && p.matches(s) && p.order@ == funding_order_of(targets)
                        &&& final(treasury).same_but_holding(old(treasury), old(treasury).holder_index(sink))
                        &&& changed_only_at(
                            old(treasury).holding_of(sink).balances@,
                            final(treasury).holding_of(sink).balances@,
                            asset@,
                            (old(treasury).available(sink, asset@) + investable - principal) as nat,
                        )
                        &&& final(treasury).holding_of(sink).unbondings@ == old(treasury).holding_of(sink).unbondings@
                        &&& final(treasury).holding_of(sink).status == old(treasury).holding_of(sink).status
                        &&& final(treasury).available(sink, asset@) == old(treasury).available(sink, asset@) + value - (principal + unbonding)
                        &&& final(treasury).total_available(asset@) == investable
                        &&& final(treasury).total_pending(asset@) == unbonding
                        &&& final(treasury).holders_total(asset@) == value
                    },
                }
            }
        },
{
    let k = match find_addr(&treasury.asset_list, asset) {
        Some(k) => k,
        None => {
            return Err(TreasuryError::UnknownAsset);
        },
    };
    proof {
        lemma_addr_index(treasury.asset_list@, asset@, k as int);
    }
    let (targets, reported) = gather_targets(&treasury.allocations[k], adapter_balances);
    let reported = match reported {
        Some(v) => v,
        None => {
            return Err(TreasuryError::ArithmeticOverflow);
        },
    };
    let unbonding = match checked_total_pending(&treasury.holdings, asset) {
        Some(v) => v,
        None => {
            return Err(TreasuryError::ArithmeticOverflow);
        },
    };
    let principal = match checked_total_available(&treasury.holdings, asset) {
        Some(v) => v,
        None => {
            return Err(TreasuryError::ArithmeticOverflow);
        },
    };
    if reported > u128::MAX - balance {
        return Err(TreasuryError::ArithmeticOverflow);
    }
    let value = reported + balance;
    if value < unbonding {
        return Err(TreasuryError::ArithmeticUnderflow);
    }
    let investable = value - unbonding;
    if investable > u128::MAX - allowance {
        return Err(TreasuryError::ArithmeticOverflow);
    }
    let total = investable + allowance;
    let order = funding_order(&targets);
    proof {
        lemma_funding_order_bounded(targets@);
    }
    let plan = plan_rebalance(&targets, &order, balance, allowance, total)?;
    let t = find_addr(&treasury.holders, &treasury.config.treasury).unwrap();
    let current = entry_amount(&treasury.holdings[t].balances, asset);
    proof {
        lemma_sum_bounds(treasury.holdings@, t as int, asset@);
    }
    let credited = if investable >= principal {
        current + (investable - principal)
    } else {
        let loss = principal - investable;
        if current < loss {
            return Err(TreasuryError::ArithmeticUnderflow);
        }
        current - loss
    };
    let ghost prior = *treasury;
    set_entry(&mut treasury.holdings[t].balances, asset, credited);
    proof {
        lemma_sums_update(prior.holdings@, t as int, treasury.holdings@[t as int], asset@);
        assert(treasury.holdings@ == prior.holdings@.update(t as int, treasury.holdings@[t as int]));
    }
    Ok(plan)
}

} // verus!
