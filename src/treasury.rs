use vstd::prelude::*;
use crate::ledger::{
    addr_index, addrs_unique, changed_only_at, contains_addr, entry_amount, find_addr,
    lemma_addr_index, lemma_sums_update, set_entry, sum_available, sum_pending, Holding, Status,
};
use crate::math::ONE_HUNDRED_PERCENT;
use crate::types::{
    Allocation, AllocationMeta, AllocationType, Asset, Config, TreasuryError,
};

verus! {

/// Sum of the `Portion` targets of an allocation list.
pub open spec fn portion_total(allocs: Seq<AllocationMeta>) -> nat
    decreases allocs.len(),
{
    if allocs.len() == 0 {
        0
    } else {
        portion_total(allocs.drop_last()) + if allocs.last().alloc_type == AllocationType::Portion {
            allocs.last().amount as nat
        } else {
            0
        }
    }
}

/// The allocation list after `alloc` replaces any allocation with the same
/// contract address and is placed last.
pub open spec fn with_allocation(allocs: Seq<AllocationMeta>, alloc: AllocationMeta) -> Seq<AllocationMeta> {
    let stale = exists|i: int| 0 <= i < allocs.len() && #[trigger] allocs[i].contract.address@ == alloc.contract.address@;
    if stale {
        allocs.remove(
            choose|i: int|
                0 <= i < allocs.len() && #[trigger] allocs[i].contract.address@ == alloc.contract.address@
                    && forall|j: int| 0 <= j < i ==> allocs[j].contract.address@ != alloc.contract.address@,
        ).push(alloc)
    } else {
        allocs.push(alloc)
    }
}

/// The state of a treasury manager: registered assets with their allocation
/// lists, and the holders with their holdings.
///
/// `asset_list`, `assets` and `allocations` run in parallel, one position per
/// asset; so do `holders` and `holdings`, one position per holder.
#[derive(Debug)]
pub struct Treasury {
    pub config: Config,
    pub asset_list: Vec<String>,
    pub assets: Vec<Asset>,
    pub allocations: Vec<Vec<AllocationMeta>>,
    pub holders: Vec<String>,
    pub holdings: Vec<Holding>,
}

/// Position of the allocation whose contract has the address `addr`.
pub fn find_allocation(allocs: &Vec<AllocationMeta>, addr: &String) -> (r: Option<usize>)
    ensures
        match r {
            Some(j) => j < allocs.len() && allocs@[j as int].contract.address@ == addr@
                && forall|m: int| 0 <= m < j ==> #[trigger] allocs@[m].contract.address@ != addr@,
            None => forall|m: int| 0 <= m < allocs.len() ==> #[trigger] allocs@[m].contract.address@ != addr@,
        },
{
    let mut j: usize = 0;
    while j < allocs.len()
        invariant
            j <= allocs.len(),
            forall|m: int| 0 <= m < j ==> #[trigger] allocs@[m].contract.address@ != addr@,
        decreases allocs.len() - j,
    {
        if allocs[j].contract.address == *addr {
            return Some(j);
        }
        j = j + 1;
    }
    None
}

/// The `Portion` target of one allocation; other kinds count for nothing.
pub open spec fn portion_of(a: AllocationMeta) -> nat {
    if a.alloc_type == AllocationType::Portion {
        a.amount as nat
    } else {
        0
    }
}

/// Sum of the `Portion` targets of a list whose targets are within 100%.
fn portion_sum(allocs: &Vec<AllocationMeta>) -> (r: u128)
    requires
        portion_total(allocs@) <= ONE_HUNDRED_PERCENT,
    ensures
        r == portion_total(allocs@),
{
    let mut sum: u128 = 0;
    let mut j: usize = 0;
    while j < allocs.len()
        invariant
            j <= allocs.len(),
            sum == portion_total(allocs@.take(j as int)),
            portion_total(allocs@) <= ONE_HUNDRED_PERCENT,
        decreases allocs.len() - j,
    {
        assert(allocs@.take(j + 1).drop_last() =~= allocs@.take(j as int));
        proof {
            lemma_portion_total_prefix(allocs@, j + 1);
        }
        if allocs[j].alloc_type == AllocationType::Portion {
            sum = sum + allocs[j].amount;
        }
        j = j + 1;
    }
    assert(allocs@.take(allocs.len() as int) =~= allocs@);
    sum
}

/// A prefix never holds more `Portion` targets than the whole list.
proof fn lemma_portion_total_prefix(allocs: Seq<AllocationMeta>, n: int)
    requires
        0 <= n <= allocs.len(),
    ensures
        portion_total(allocs.take(n)) <= portion_total(allocs),
    decreases allocs.len(),
{
    if n < allocs.len() {
        assert(allocs.drop_last().take(n) =~= allocs.take(n));
        lemma_portion_total_prefix(allocs.drop_last(), n);
    } else {
        assert(allocs.take(n) =~= allocs);
    }
}

/// Taking one allocation out takes its `Portion` target out of the sum.
proof fn lemma_portion_total_remove(allocs: Seq<AllocationMeta>, i: int)
    requires
        0 <= i < allocs.len(),
    ensures
        portion_total(allocs.remove(i)) + portion_of(allocs[i]) == portion_total(allocs),
    decreases allocs.len(),
{
    if i == allocs.len() - 1 {
        assert(allocs.remove(i) =~= allocs.drop_last());
    } else {
        assert(allocs.remove(i).drop_last() =~= allocs.drop_last().remove(i));
        lemma_portion_total_remove(allocs.drop_last(), i);
    }
}

/// The first allocation with the contract address of `meta`, if any.
proof fn lemma_first_stale(allocs: Seq<AllocationMeta>, meta: AllocationMeta, i: int)
    requires
        0 <= i < allocs.len(),
        allocs[i].contract.address@ == meta.contract.address@,
        forall|m: int| 0 <= m < i ==> #[trigger] allocs[m].contract.address@ != meta.contract.address@,
    ensures
        with_allocation(allocs, meta) == allocs.remove(i).push(meta),
{
    let addr = meta.contract.address@;
    let c = choose|c: int|
        0 <= c < allocs.len() && #[trigger] allocs[c].contract.address@ == addr
            && forall|j: int| 0 <= j < c ==> allocs[j].contract.address@ != addr;
    assert(allocs[i].contract.address@ == addr);
    if c < i {
        assert(allocs[c].contract.address@ != addr);
    } else if c > i {
        assert(allocs[i].contract.address@ != addr);
    }
}

/// An empty, active holding.
fn empty_holding() -> (h: Holding)
    ensures
        h.wf(),
        h.balances@.len() == 0,
        h.unbondings@.len() == 0,
        h.status == Status::Active,
{
    Holding { balances: Vec::new(), unbondings: Vec::new(), status: Status::Active }
}

impl Treasury {
    pub open spec fn wf(&self) -> bool {
        &&& self.asset_list.len() == self.assets.len()
        &&& self.asset_list.len() == self.allocations.len()
        &&& addrs_unique(self.asset_list@)
        &&& forall|i: int|
            0 <= i < self.assets.len() ==> #[trigger] self.assets@[i].contract.address@
                == self.asset_list@[i]@
        &&& forall|i: int|
            0 <= i < self.allocations.len() ==> portion_total(#[trigger] self.allocations@[i]@)
                <= ONE_HUNDRED_PERCENT
        &&& self.holders.len() == self.holdings.len()
        &&& addrs_unique(self.holders@)
        &&& contains_addr(self.holders@, self.config.treasury@)
        &&& forall|i: int| 0 <= i < self.holdings.len() ==> (#[trigger] self.holdings@[i]).wf()
    }

    pub open spec fn is_asset(&self, asset: Seq<char>) -> bool {
        contains_addr(self.asset_list@, asset)
    }

    pub open spec fn asset_index(&self, asset: Seq<char>) -> int {
        addr_index(self.asset_list@, asset)
    }

    /// The allocation list of a registered asset.
    pub open spec fn allocations_of(&self, asset: Seq<char>) -> Seq<AllocationMeta> {
        self.allocations@[self.asset_index(asset)]@
    }

    pub open spec fn is_holder(&self, holder: Seq<char>) -> bool {
        contains_addr(self.holders@, holder)
    }

    pub open spec fn holder_index(&self, holder: Seq<char>) -> int {
        addr_index(self.holders@, holder)
    }

    pub open spec fn holding_of(&self, holder: Seq<char>) -> Holding {
        self.holdings@[self.holder_index(holder)]
    }

    /// A holder's available balance of an asset.
    pub open spec fn available(&self, holder: Seq<char>, asset: Seq<char>) -> nat {
        self.holding_of(holder).available(asset)
    }

    /// A holder's balance of an asset waiting to be withdrawn.
    pub open spec fn pending(&self, holder: Seq<char>, asset: Seq<char>) -> nat {
        self.holding_of(holder).pending(asset)
    }

    /// What all holders together have available of an asset.
    pub open spec fn total_available(&self, asset: Seq<char>) -> nat {
        sum_available(self.holdings@, asset)
    }

    /// What all holders together wait to withdraw of an asset.
    pub open spec fn total_pending(&self, asset: Seq<char>) -> nat {
        sum_pending(self.holdings@, asset)
    }

    /// What the holders together are owed of an asset: their available
    /// balances and their pending withdrawals.
    pub open spec fn holders_total(&self, asset: Seq<char>) -> nat {
        self.total_available(asset) + self.total_pending(asset)
    }

    /// Only the holding at position `i` may differ between the two states.
    pub open spec fn same_but_holding(&self, other: &Treasury, i: int) -> bool {
        &&& self.config == other.config
        &&& self.asset_list@ == other.asset_list@
        &&& self.assets@ == other.assets@
        &&& self.allocations@ == other.allocations@
        &&& self.holders@ == other.holders@
        &&& self.holdings.len() == other.holdings.len()
        &&& forall|k: int| 0 <= k < self.holdings.len() && k != i ==> #[trigger] self.holdings@[k] == other.holdings@[k]
    }

    /// Only the configuration may differ between the two states.
    pub open spec fn same_but_config(&self, other: &Treasury) -> bool {
        &&& self.asset_list@ == other.asset_list@
        &&& self.assets@ == other.assets@
        &&& self.allocations@ == other.allocations@
        &&& self.holders@ == other.holders@
        &&& self.holdings@ == other.holdings@
    }

    /// Whether `addr` is the contract of one of the asset's allocations.
    pub open spec fn is_allocation_address(&self, asset: Seq<char>, addr: Seq<char>) -> bool {
        exists|k: int|
            0 <= k < self.allocations_of(asset).len() && #[trigger] self.allocations_of(asset)[k].contract.address@
                == addr
    }

    /// Who a deposit from `from` is credited to.
    pub open spec fn deposit_recipient(&self, from: Seq<char>) -> Seq<char> {
        if self.is_holder(from) {
            from
        } else {
            self.config.treasury@
        }
    }

    /// A new manager whose only holder is the treasury, with an empty holding.
    pub fn new(config: Config) -> (r: Treasury)
        ensures
            r.wf(),
            r.config == config,
            r.asset_list@.len() == 0,
            r.holders@.len() == 1,
            r.holders@[0]@ == config.treasury@,
            r.holdings@[0].balances@.len() == 0,
            r.holdings@[0].unbondings@.len() == 0,
            r.holdings@[0].status == Status::Active,
    {
        let mut holders: Vec<String> = Vec::new();
        holders.push(config.treasury.clone());
        let mut holdings: Vec<Holding> = Vec::new();
        holdings.push(empty_holding());
        let r = Treasury {
            config,
            asset_list: Vec::new(),
            assets: Vec::new(),
            allocations: Vec::new(),
            holders,
            holdings,
        };
        assert(r.holders@[0]@ == r.config.treasury@);
        r
    }
}

/// Replaces the configuration. The new treasury must already be a holder.
pub fn try_update_config(
    treasury: &mut Treasury,
    authorized: bool,
    config: Config,
) -> (r: Result<(), TreasuryError>)
    requires
        old(treasury).wf(),
    ensures
        final(treasury).wf(),
        !authorized ==> r == Err::<(), _>(TreasuryError::Unauthorized),
        authorized && !old(treasury).is_holder(config.treasury@) ==> r == Err::<(), _>(TreasuryError::UnknownHolder),
        authorized && old(treasury).is_holder(config.treasury@) ==> r is Ok,
        r is Ok ==> final(treasury).config == config && final(treasury).same_but_config(old(treasury)),
        r is Err ==> *final(treasury) == *old(treasury),
{
    if !authorized {
        return Err(TreasuryError::Unauthorized);
    }
    if find_addr(&treasury.holders, &config.treasury).is_none() {
        return Err(TreasuryError::UnknownHolder);
    }
    treasury.config = config;
    Ok(())
}

/// Registers an asset, or refreshes its metadata when it is registered
/// already; either way the asset starts with no allocations.
pub fn try_register_asset(
    treasury: &mut Treasury,
    authorized: bool,
    asset: Asset,
) -> (r: Result<(), TreasuryError>)
    requires
        old(treasury).wf(),
    ensures
        final(treasury).wf(),
        !authorized <==> r == Err::<(), _>(TreasuryError::Unauthorized),
        authorized ==> r is Ok,
        r is Err ==> *final(treasury) == *old(treasury),
        r is Ok ==> {
            let addr = asset.contract.address@;
            let k = old(treasury).asset_index(addr);
            &&& final(treasury).config == old(treasury).config
            &&& final(treasury).holders@ == old(treasury).holders@
            &&& final(treasury).holdings@ == old(treasury).holdings@
            &&& final(treasury).is_asset(addr)
            &&& final(treasury).allocations_of(addr).len() == 0
            &&& if old(treasury).is_asset(addr) {
                &&& final(treasury).asset_list@ == old(treasury).asset_list@
                &&& final(treasury).assets@ == old(treasury).assets@.update(k, asset)
                &&& final(treasury).allocations@.len() == old(treasury).allocations@.len()
                &&& forall|j: int| 0 <= j < old(treasury).allocations@.len() && j != k ==> #[trigger] final(treasury).allocations@[j]
                    == old(treasury).allocations@[j]
            } else {
                &&& final(treasury).asset_list@ == old(treasury).asset_list@.push(asset.contract.address)
                &&& final(treasury).assets@ == old(treasury).assets@.push(asset)
                &&& final(treasury).allocations@.drop_last() == old(treasury).allocations@
            }
        },
{
    if !authorized {
        return Err(TreasuryError::Unauthorized);
    }
    let ghost prior = *treasury;
    let ghost addr = asset.contract.address@;
    match find_addr(&treasury.asset_list, &asset.contract.address) {
        Some(k) => {
            treasury.assets.set(k, asset);
            treasury.allocations.set(k, Vec::new());
            proof {
                lemma_addr_index(treasury.asset_list@, addr, k as int);
                assert forall|i: int| 0 <= i < treasury.allocations.len() implies portion_total(#[trigger] treasury.allocations@[i]@)
                    <= ONE_HUNDRED_PERCENT by {
                    if i != k {
                        assert(treasury.allocations@[i] == prior.allocations@[i]);
                    } else {
                        assert(treasury.allocations@[i]@.len() == 0);
                    }
                }
            }
        },
        None => {
            let address = asset.contract.address.clone();
            treasury.asset_list.push(address);
            treasury.assets.push(asset);
            treasury.allocations.push(Vec::new());
            proof {
                let n = prior.asset_list@.len() as int;
                assert(treasury.asset_list@[n]@ == addr);
                assert(addrs_unique(treasury.asset_list@));
                lemma_addr_index(treasury.asset_list@, addr, n);
                assert(treasury.allocations@.drop_last() =~= prior.allocations@);
                assert forall|i: int| 0 <= i < treasury.allocations.len() implies portion_total(#[trigger] treasury.allocations@[i]@)
                    <= ONE_HUNDRED_PERCENT by {
                    if i < n {
                        assert(treasury.allocations@[i] == prior.allocations@[i]);
                    } else {
                        assert(treasury.allocations@[i]@.len() == 0);
                    }
                }
            }
        },
    }
    Ok(())
}

/// Sets an allocation of a registered asset: it replaces the allocation
/// with the same contract address, if any, and goes last in the list. It
/// is refused when the `Portion` targets would then exceed 100%.
pub fn allocate(
    treasury: &mut Treasury,
    authorized: bool,
    asset: &String,
    allocation: Allocation,
) -> (r: Result<(), TreasuryError>)
    requires
        old(treasury).wf(),
    ensures
        final(treasury).wf(),
        r is Err ==> *final(treasury) == *old(treasury),
        !authorized ==> r == Err::<(), _>(TreasuryError::Unauthorized),
        authorized && !old(treasury).is_asset(asset@) ==> r == Err::<(), _>(TreasuryError::UnknownAsset),
        authorized && old(treasury).is_asset(asset@) ==> {
            let meta = AllocationMeta {
                nick: allocation.nick,
                contract: allocation.contract,
                amount: allocation.amount,
                alloc_type: allocation.alloc_type,
                balance: 0,
                tolerance: allocation.tolerance,
            };
            let updated = with_allocation(old(treasury).allocations_of(asset@), meta);
            if portion_total(updated) > ONE_HUNDRED_PERCENT {
                r == Err::<(), _>(TreasuryError::AllocationCapExceeded)
            } else {
                &&& r is Ok
                &&& final(treasury).allocations_of(asset@) == updated
                &&& final(treasury).allocations@ == old(treasury).allocations@.update(
                    old(treasury).asset_index(asset@),
                    final(treasury).allocations@[old(treasury).asset_index(asset@)],
                )
                &&& final(treasury).config == old(treasury).config
                &&& final(treasury).asset_list@ == old(treasury).asset_list@
                &&& final(treasury).assets@ == old(treasury).assets@
                &&& final(treasury).holders@ == old(treasury).holders@
                &&& final(treasury).holdings@ == old(treasury).holdings@
            }
        },
{
    if !authorized {
        return Err(TreasuryError::Unauthorized);
    }
    let k = match find_addr(&treasury.asset_list, asset) {
        Some(k) => k,
        None => {
            return Err(TreasuryError::UnknownAsset);
        },
    };
    let meta = AllocationMeta {
        nick: allocation.nick,
        contract: allocation.contract,
        amount: allocation.amount,
        alloc_type: allocation.alloc_type,
        balance: 0,
        tolerance: allocation.tolerance,
    };
    let ghost prior = *treasury;
    let ghost before = treasury.allocations@[k as int]@;
    proof {
        lemma_addr_index(treasury.asset_list@, asset@, k as int);
    }
    let current = portion_sum(&treasury.allocations[k]);
    let stale = find_allocation(&treasury.allocations[k], &meta.contract.address);
    let freed: u128 = match stale {
        Some(i) => {
            proof {
                lemma_first_stale(before, meta, i as int);
                lemma_portion_total_remove(before, i as int);
                assert(with_allocation(before, meta).drop_last() =~= before.remove(i as int));
            }
            if treasury.allocations[k][i].alloc_type == AllocationType::Portion {
                treasury.allocations[k][i].amount
            } else {
                0
            }
        },
        None => {
            assert(with_allocation(before, meta).drop_last() =~= before);
            0
        },
    };
    let added: u128 = if meta.alloc_type == AllocationType::Portion {
        meta.amount
    } else {
        0
    };
    if added > ONE_HUNDRED_PERCENT - (current - freed) {
        return Err(TreasuryError::AllocationCapExceeded);
    }
    match stale {
        Some(i) => {
            treasury.allocations[k].remove(i);
        },
        None => {},
    }
    treasury.allocations[k].push(meta);
    proof {
        assert(treasury.allocations@[k as int]@ =~= with_allocation(before, meta));
        assert(treasury.allocations@ == prior.allocations@.update(k as int, treasury.allocations@[k as int]));
        assert forall|i: int| 0 <= i < treasury.allocations.len() implies portion_total(#[trigger] treasury.allocations@[i]@)
            <= ONE_HUNDRED_PERCENT by {
            if i != k {
                assert(treasury.allocations@[i] == prior.allocations@[i]);
            }
        }
    }
    Ok(())
}

/// Adds a holder with an empty, active holding.
pub fn add_holder(
    treasury: &mut Treasury,
    authorized: bool,
    holder: String,
) -> (r: Result<(), TreasuryError>)
    requires
        old(treasury).wf(),
    ensures
        final(treasury).wf(),
        r is Err ==> *final(treasury) == *old(treasury),
        !authorized ==> r == Err::<(), _>(TreasuryError::Unauthorized),
        authorized && old(treasury).is_holder(holder@) ==> r == Err::<(), _>(TreasuryError::HolderAlreadyExists),
        authorized && !old(treasury).is_holder(holder@) ==> {
            &&& r is Ok
            &&& final(treasury).holders@ == old(treasury).holders@.push(holder)
            &&& final(treasury).holdings@.len() == old(treasury).holdings@.len() + 1
            &&& final(treasury).holdings@.drop_last() == old(treasury).holdings@
            &&& final(treasury).holdings@.last().balances@.len() == 0
            &&& final(treasury).holdings@.last().unbondings@.len() == 0
            &&& final(treasury).holdings@.last().status == Status::Active
            &&& final(treasury).config == old(treasury).config
            &&& final(treasury).asset_list@ == old(treasury).asset_list@
            &&& final(treasury).assets@ == old(treasury).assets@
            &&& final(treasury).allocations@ == old(treasury).allocations@
        },
{
    if !authorized {
        return Err(TreasuryError::Unauthorized);
    }
    if find_addr(&treasury.holders, &holder).is_some() {
        return Err(TreasuryError::HolderAlreadyExists);
    }
    let ghost prior = *treasury;
    treasury.holders.push(holder);
    treasury.holdings.push(empty_holding());
    proof {
        assert(treasury.holdings@.drop_last() =~= prior.holdings@);
        let t = prior.holder_index(prior.config.treasury@);
        assert(treasury.holders@[t] == prior.holders@[t]);
        assert(addrs_unique(treasury.holders@));
    }
    Ok(())
}

/// Closes a holder's holding: it is kept, with its balances, but takes
/// no new deposits or withdrawal requests.
pub fn remove_holder(
    treasury: &mut Treasury,
    authorized: bool,
    holder: &String,
) -> (r: Result<(), TreasuryError>)
    requires
        old(treasury).wf(),
    ensures
        final(treasury).wf(),
        r is Err ==> *final(treasury) == *old(treasury),
        !authorized ==> r == Err::<(), _>(TreasuryError::Unauthorized),
        authorized && !old(treasury).is_holder(holder@) ==> r == Err::<(), _>(TreasuryError::UnknownHolder),
        authorized && old(treasury).is_holder(holder@) ==> {
            &&& r is Ok
            &&& final(treasury).same_but_holding(old(treasury), old(treasury).holder_index(holder@))
            &&& final(treasury).holding_of(holder@).status == Status::Closed
            &&& final(treasury).holding_of(holder@).balances@ == old(treasury).holding_of(holder@).balances@
            &&& final(treasury).holding_of(holder@).unbondings@ == old(treasury).holding_of(holder@).unbondings@
        },
{
    if !authorized {
        return Err(TreasuryError::Unauthorized);
    }
    let i = match find_addr(&treasury.holders, holder) {
        Some(i) => i,
        None => {
            return Err(TreasuryError::UnknownHolder);
        },
    };
    treasury.holdings[i].status = Status::Closed;
    Ok(())
}

/// Credits a deposit of `amount` of `asset` sent by `from`.
///
/// A deposit from one of the asset's allocations is funds coming back from
/// that sub-account and is credited to no one. Otherwise the sender is
/// credited when it is a holder, and the treasury holder when it is not.
pub fn receive(
    treasury: &mut Treasury,
    asset: &String,
    from: &String,
    amount: u128,
) -> (r: Result<(), TreasuryError>)
    requires
        old(treasury).wf(),
    ensures
        final(treasury).wf(),
        !old(treasury).is_asset(asset@) ==> r == Err::<(), _>(TreasuryError::UnknownAsset),
        old(treasury).is_asset(asset@) && old(treasury).is_allocation_address(asset@, from@) ==> r is Ok,
        old(treasury).is_asset(asset@) && !old(treasury).is_allocation_address(asset@, from@) ==> {
            let who = old(treasury).deposit_recipient(from@);
            let before = old(treasury).available(who, asset@);
            if old(treasury).holding_of(who).status == Status::Closed {
                r == Err::<(), _>(TreasuryError::InactiveHolding)
            } else if before + amount > u128::MAX {
                r == Err::<(), _>(TreasuryError::ArithmeticOverflow)
            } else {
                &&& r is Ok
                &&& final(treasury).same_but_holding(old(treasury), old(treasury).holder_index(who))
                &&& changed_only_at(old(treasury).holding_of(who).balances@, final(treasury).holding_of(who).balances@, asset@, (before + amount) as nat)
                &&& final(treasury).holding_of(who).unbondings@ == old(treasury).holding_of(who).unbondings@
                &&& final(treasury).holding_of(who).status == old(treasury).holding_of(who).status
                &&& final(treasury).total_available(asset@) == old(treasury).total_available(asset@) + amount
                &&& final(treasury).total_pending(asset@) == old(treasury).total_pending(asset@)
                &&& final(treasury).holders_total(asset@) == old(treasury).holders_total(asset@) + amount
            }
        },
        r is Err || !(old(treasury).is_asset(asset@) && !old(treasury).is_allocation_address(asset@, from@)) ==> *final(treasury) == *old(treasury),
{
    let k = match find_addr(&treasury.asset_list, asset) {
        Some(k) => k,
        None => {
            return Err(TreasuryError::UnknownAsset);
        },
    };
    if find_allocation(&treasury.allocations[k], from).is_some() {
        return Ok(());
    }
    assert(!treasury.is_allocation_address(asset@, from@));
    let i = match find_addr(&treasury.holders, from) {
        Some(i) => i,
        None => {
            let t = find_addr(&treasury.holders, &treasury.config.treasury);
            t.unwrap()
        },
    };
    let ghost who = treasury.deposit_recipient(from@);
    assert(treasury.holder_index(who) == i);
    if treasury.holdings[i].status == Status::Closed {
        return Err(TreasuryError::InactiveHolding);
    }
    let before = entry_amount(&treasury.holdings[i].balances, asset);
    if before > u128::MAX - amount {
        return Err(TreasuryError::ArithmeticOverflow);
    }
    let ghost prior = *treasury;
    set_entry(&mut treasury.holdings[i].balances, asset, before + amount);
    proof {
        lemma_sums_update(prior.holdings@, i as int, treasury.holdings@[i as int], asset@);
        assert(treasury.holdings@ == prior.holdings@.update(i as int, treasury.holdings@[i as int]));
    }
    Ok(())
}

} // verus!
