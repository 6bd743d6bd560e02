use vstd::prelude::*;
use crate::rebalance::{
    desired_amount, funding_order_of, initial_state, lemma_funding_order_bounded, plan_fold,
    plan_step, positions_of, rebalance_fold, threshold_of, PlanState, Target,
};
use crate::types::{AllocationType, Movement};

verus! {

/// What the movements carry to or from the allocation at position `k`.
pub open spec fn moved(ms: Seq<Movement>, k: int) -> nat
    decreases ms.len(),
{
    if ms.len() == 0 {
        0
    } else {
        moved(ms.drop_last(), k) + if ms.last().allocation == k {
            ms.last().amount as nat
        } else {
            0
        }
    }
}

/// The allocations once a plan's movements have landed: each holds what it
/// held, plus what was sent to it, less what was pulled back.
pub open spec fn landed(targets: Seq<Target>, s: PlanState) -> Seq<Target> {
    Seq::new(
        targets.len(),
        |k: int|
            Target {
                alloc_type: targets[k].alloc_type,
                amount: targets[k].amount,
                tolerance: targets[k].tolerance,
                balance: (targets[k].balance + moved(s.sends, k) + moved(s.send_froms, k) - moved(
                    s.unbonds,
                    k,
                )) as u128,
            },
    )
}

/// A waterfall state that has moved nothing.
pub open spec fn quiet(balance: nat, allowance: nat, committed: nat) -> PlanState {
    PlanState {
        balance,
        allowance,
        committed,
        sends: Seq::empty(),
        send_froms: Seq::empty(),
        unbonds: Seq::empty(),
    }
}

/// The allocation at position `n` of the funding order, if it is short of
/// its desired level by more than its threshold, finds enough left in the
/// liquid balance and the allowance together to cover the whole gap.
pub open spec fn gap_covered_at(targets: Seq<Target>, balance: nat, allowance: nat, total: int, n: int) -> bool {
    let order = funding_order_of(targets);
    match plan_fold(targets, order.take(n), initial_state(balance, allowance), total) {
        Some(s) => {
            let t = targets[order[n] as int];
            let d = desired_amount(t, total, s.committed as int);
            t.balance < d && d - t.balance > threshold_of(t, d) ==> s.balance + s.allowance >= d - t.balance
        },
        None => true,
    }
}

/// Every gap the round acts on is covered in full.
pub open spec fn covers_every_gap(targets: Seq<Target>, balance: nat, allowance: nat, total: int) -> bool {
    forall|n: int|
        0 <= n < funding_order_of(targets).len() ==> #[trigger] gap_covered_at(targets, balance, allowance, total, n)
}

proof fn lemma_fold_prefix_some(targets: Seq<Target>, order: Seq<usize>, init: PlanState, total: int, n: int)
    requires
        0 <= n <= order.len(),
        plan_fold(targets, order, init, total) is Some,
    ensures
        plan_fold(targets, order.take(n), init, total) is Some,
    decreases order.len() - n,
{
    if n < order.len() {
        lemma_fold_prefix_some(targets, order, init, total, n + 1);
        assert(order.take(n + 1).drop_last() =~= order.take(n));
    } else {
        assert(order.take(n) =~= order);
    }
}

/// Steps for other positions leave what was moved for `k` as it was.
proof fn lemma_untouched(targets: Seq<Target>, order: Seq<usize>, init: PlanState, total: int, a: int, b: int, k: int)
    requires
        0 <= a <= b <= order.len(),
        plan_fold(targets, order.take(b), init, total) is Some,
        forall|m: int| a <= m < b ==> order[m] != k,
    ensures
        plan_fold(targets, order.take(a), init, total) matches Some(sa) && plan_fold(targets, order.take(b), init, total) matches Some(sb)
            && moved(sb.sends, k) == moved(sa.sends, k) && moved(sb.send_froms, k) == moved(sa.send_froms, k)
            && moved(sb.unbonds, k) == moved(sa.unbonds, k),
    decreases b - a,
{
    if a < b {
        assert(order.take(b).drop_last() =~= order.take(b - 1));
        lemma_untouched(targets, order, init, total, a, b - 1, k);
        let sp = plan_fold(targets, order.take(b - 1), init, total)->Some_0;
        let sb = plan_fold(targets, order.take(b), init, total)->Some_0;
        assert(sb.sends.len() > sp.sends.len() ==> sb.sends.drop_last() == sp.sends);
        assert(sb.send_froms.len() > sp.send_froms.len() ==> sb.send_froms.drop_last() == sp.send_froms);
        assert(sb.unbonds.len() > sp.unbonds.len() ==> sb.unbonds.drop_last() == sp.unbonds);
    }
}

proof fn lemma_nothing_moved_yet(k: int)
    ensures
        moved(Seq::<Movement>::empty(), k) == 0,
{
}

/// The second round over the first `n` positions of the order moves nothing.
proof fn lemma_second_round_quiet(
    targets: Seq<Target>,
    balance: nat,
    allowance: nat,
    total: int,
    next_balance: nat,
    next_allowance: nat,
    n: int,
)
    requires
        targets.len() <= usize::MAX,
        0 <= n <= funding_order_of(targets).len(),
        rebalance_fold(targets, balance, allowance, total) is Some,
        covers_every_gap(targets, balance, allowance, total),
    ensures
        plan_fold(targets, funding_order_of(targets).take(n), initial_state(balance, allowance), total) matches Some(s1)
            && plan_fold(
            landed(targets, rebalance_fold(targets, balance, allowance, total)->Some_0),
            funding_order_of(targets).take(n),
            initial_state(next_balance, next_allowance),
            total,
        ) == Some(quiet(next_balance, next_allowance, s1.committed)),
    decreases n,
{
    let order = funding_order_of(targets);
    let init = initial_state(balance, allowance);
    let s = rebalance_fold(targets, balance, allowance, total)->Some_0;
    let next = landed(targets, s);
    lemma_fold_prefix_some(targets, order, init, total, n);
    if n == 0 {
        assert(order.take(0) =~= Seq::<usize>::empty());
    } else {
        lemma_second_round_quiet(targets, balance, allowance, total, next_balance, next_allowance, n - 1);
        lemma_funding_order_bounded(targets);
        assert(order.take(n).drop_last() =~= order.take(n - 1));
        let k = order[n - 1];
        assert(order.take(n).last() == k);
        let before = plan_fold(targets, order.take(n - 1), init, total)->Some_0;
        let after = plan_fold(targets, order.take(n), init, total)->Some_0;
        assert(order.take(order.len() as int) =~= order);
        // Nothing was moved for `k` before its turn, and nothing after it.
        assert forall|m: int| 0 <= m < n - 1 implies order[m] != k by {}
        lemma_untouched(targets, order, init, total, 0, n - 1, k as int);
        assert(order.take(0) =~= Seq::<usize>::empty());
        lemma_nothing_moved_yet(k as int);
        assert forall|m: int| n <= m < order.len() implies order[m] != k by {}
        lemma_untouched(targets, order, init, total, n, order.len() as int, k as int);
        let t = targets[k as int];
        let d = desired_amount(t, total, before.committed as int);
        let th = threshold_of(t, d);
        assert(moved(before.sends, k as int) == 0);
        assert(moved(before.send_froms, k as int) == 0);
        assert(moved(before.unbonds, k as int) == 0);
        assert(after == plan_step(before, t, k, total)->Some_0);
        if t.balance < d && d - t.balance > th {
            assert(gap_covered_at(targets, balance, allowance, total, n - 1));
            if after.sends.len() > before.sends.len() {
                assert(after.sends.drop_last() =~= before.sends);
            }
            if after.send_froms.len() > before.send_froms.len() {
                assert(after.send_froms.drop_last() =~= before.send_froms);
            }
            assert(after.unbonds == before.unbonds);
        } else if t.balance > d && t.balance - d > th {
            assert(after.unbonds.drop_last() =~= before.unbonds);
            assert(after.sends == before.sends);
            assert(after.send_froms == before.send_froms);
        } else {
            assert(after.sends == before.sends);
            assert(after.send_froms == before.send_froms);
            assert(after.unbonds == before.unbonds);
        }
        assert(next[k as int].balance == if (t.balance < d && d - t.balance > th) || (t.balance > d && t.balance - d > th) {
            d
        } else {
            t.balance as int
        });
    }
}

/// Rebalancing a second time, once the first round's movements have landed,
/// moves nothing: no transfer, no draw on the allowance, no withdrawal.
///
/// This holds when nothing else changed in between, so the value to spread
/// (`total`) is the same, and when the first round covered in full every gap
/// it acted on.
pub proof fn rebalance_is_idempotent(
    targets: Seq<Target>,
    balance: nat,
    allowance: nat,
    total: int,
    next_balance: nat,
    next_allowance: nat,
)
    requires
        targets.len() <= usize::MAX,
        rebalance_fold(targets, balance, allowance, total) is Some,
        covers_every_gap(targets, balance, allowance, total),
    ensures
        rebalance_fold(
            landed(targets, rebalance_fold(targets, balance, allowance, total)->Some_0),
            next_balance,
            next_allowance,
            total,
        ) matches Some(s2) && s2.sends.len() == 0 && s2.send_froms.len() == 0 && s2.unbonds.len() == 0,
{
    let order = funding_order_of(targets);
    let next = landed(targets, rebalance_fold(targets, balance, allowance, total)->Some_0);
    lemma_second_round_quiet(targets, balance, allowance, total, next_balance, next_allowance, order.len() as int);
    assert(order.take(order.len() as int) =~= order);
    lemma_same_positions(targets, next, AllocationType::Amount, targets.len());
    lemma_same_positions(targets, next, AllocationType::Portion, targets.len());
    assert(funding_order_of(next) == order);
}

/// Lists whose allocations have the same types give the same positions.
proof fn lemma_same_positions(a: Seq<Target>, b: Seq<Target>, ty: AllocationType, n: nat)
    requires
        n <= a.len(),
        a.len() == b.len(),
        forall|k: int| 0 <= k < a.len() ==> #[trigger] a[k].alloc_type == b[k].alloc_type,
    ensures
        positions_of(a, ty, n) == positions_of(b, ty, n),
    decreases n,
{
    if n > 0 {
        lemma_same_positions(a, b, ty, (n - 1) as nat);
    }
}

} // verus!
