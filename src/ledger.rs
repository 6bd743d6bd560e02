use vstd::prelude::*;

verus! {

/// An amount of one asset, keyed by the asset's address.
#[derive(Debug)]
pub struct Balance {
    pub token: String,
    pub amount: u128,
}

/// Lifecycle of a holder.
#[derive(Clone, Copy, Debug, PartialEq, Eq, Structural)]
pub enum Status {
    Active,
    Closed,
}

/// What one holder has with the treasury: available balances and balances
/// waiting to be withdrawn, one entry per asset.
#[derive(Debug)]
pub struct Holding {
    pub balances: Vec<Balance>,
    pub unbondings: Vec<Balance>,
    pub status: Status,
}

/// No asset appears twice in the list.
pub open spec fn tokens_unique(entries: Seq<Balance>) -> bool {
    forall|i: int, j: int|
        0 <= i < entries.len() && 0 <= j < entries.len() && #[trigger] entries[i].token@
            == #[trigger] entries[j].token@ ==> i == j
}

/// The list holds an entry for the asset.
pub open spec fn has_token(entries: Seq<Balance>, token: Seq<char>) -> bool {
    exists|i: int| 0 <= i < entries.len() && #[trigger] entries[i].token@ == token
}

/// The amount recorded for an asset; an asset without an entry has none.
pub open spec fn amount_of(entries: Seq<Balance>, token: Seq<char>) -> nat {
    if has_token(entries, token) {
        entries[choose|i: int| 0 <= i < entries.len() && #[trigger] entries[i].token@ == token].amount as nat
    } else {
        0
    }
}

impl Holding {
    pub open spec fn wf(&self) -> bool {
        tokens_unique(self.balances@) && tokens_unique(self.unbondings@)
    }

    /// Available balance of an asset.
    pub open spec fn available(&self, asset: Seq<char>) -> nat {
        amount_of(self.balances@, asset)
    }

    /// Balance of an asset waiting to be withdrawn.
    pub open spec fn pending(&self, asset: Seq<char>) -> nat {
        amount_of(self.unbondings@, asset)
    }
}

/// Two lists agree on every asset but `token`, where the second records
/// `amount`.
pub open spec fn changed_only_at(
    before: Seq<Balance>,
    after: Seq<Balance>,
    token: Seq<char>,
    amount: nat,
) -> bool {
    &&& tokens_unique(after)
    &&& amount_of(after, token) == amount
    &&& forall|t: Seq<char>| t != token ==> #[trigger] amount_of(after, t) == amount_of(before, t)
}

pub proof fn lemma_amount_at(entries: Seq<Balance>, token: Seq<char>, i: int)
    requires
        tokens_unique(entries),
        0 <= i < entries.len(),
        entries[i].token@ == token,
    ensures
        amount_of(entries, token) == entries[i].amount,
{
    assert(has_token(entries, token));
}

/// Position of the entry for `token`, if there is one.
pub fn find_entry(entries: &Vec<Balance>, token: &String) -> (r: Option<usize>)
    ensures
        match r {
            Some(i) => i < entries.len() && entries@[i as int].token@ == token@,
            None => !has_token(entries@, token@),
        },
{
    let mut i: usize = 0;
    while i < entries.len()
        invariant
            i <= entries.len(),
            forall|j: int| 0 <= j < i ==> #[trigger] entries@[j].token@ != token@,
        decreases entries.len() - i,
    {
        if entries[i].token == *token {
            return Some(i);
        }
        i = i + 1;
    }
    None
}

/// The amount recorded for an asset.
pub fn entry_amount(entries: &Vec<Balance>, token: &String) -> (r: u128)
    requires
        tokens_unique(entries@),
    ensures
        r == amount_of(entries@, token@),
{
    match find_entry(entries, token) {
        Some(i) => {
            proof {
                lemma_amount_at(entries@, token@, i as int);
            }
            entries[i].amount
        },
        None => 0,
    }
}

/// Records `amount` for the asset, adding an entry when there is none.
pub fn set_entry(entries: &mut Vec<Balance>, token: &String, amount: u128)
    requires
        tokens_unique(old(entries)@),
    ensures
        changed_only_at(old(entries)@, final(entries)@, token@, amount as nat),
{
    let ghost before = entries@;
    match find_entry(entries, token) {
        Some(i) => {
            entries[i].amount = amount;
            proof {
                let after = entries@;
                assert(tokens_unique(after));
                lemma_amount_at(after, token@, i as int);
                assert forall|t: Seq<char>| t != token@ implies #[trigger] amount_of(after, t)
                    == amount_of(before, t) by {
                    if has_token(before, t) {
                        let k = choose|k: int| 0 <= k < before.len() && #[trigger] before[k].token@ == t;
                        lemma_amount_at(before, t, k);
                        lemma_amount_at(after, t, k);
                    } else {
                        assert forall|k: int| 0 <= k < after.len() implies #[trigger] after[k].token@ != t by {
                            assert(before[k].token@ == after[k].token@);
                        }
                    }
                }
            }
        },
        None => {
            entries.push(Balance { token: token.clone(), amount });
            proof {
                let after = entries@;
                assert(after.len() == before.len() + 1);
                assert(tokens_unique(after));
                lemma_amount_at(after, token@, before.len() as int);
                assert forall|t: Seq<char>| t != token@ implies #[trigger] amount_of(after, t)
                    == amount_of(before, t) by {
                    if has_token(before, t) {
                        let k = choose|k: int| 0 <= k < before.len() && #[trigger] before[k].token@ == t;
                        lemma_amount_at(before, t, k);
                        lemma_amount_at(after, t, k);
                    } else {
                        assert forall|k: int| 0 <= k < after.len() implies #[trigger] after[k].token@ != t by {
                            if k < before.len() {
                                assert(before[k].token@ == after[k].token@);
                            }
                        }
                    }
                }
            }
        },
    }
}

/// No address appears twice in the list.
pub open spec fn addrs_unique(s: Seq<String>) -> bool {
    forall|i: int, j: int|
        0 <= i < s.len() && 0 <= j < s.len() && #[trigger] s[i]@ == #[trigger] s[j]@ ==> i == j
}

/// The list holds the address.
pub open spec fn contains_addr(s: Seq<String>, a: Seq<char>) -> bool {
    exists|i: int| 0 <= i < s.len() && #[trigger] s[i]@ == a
}

/// Position of the address in the list (meaningful when it is there).
pub open spec fn addr_index(s: Seq<String>, a: Seq<char>) -> int {
    choose|i: int| 0 <= i < s.len() && #[trigger] s[i]@ == a
}

pub proof fn lemma_addr_index(s: Seq<String>, a: Seq<char>, i: int)
    requires
        addrs_unique(s),
        0 <= i < s.len(),
        s[i]@ == a,
    ensures
        contains_addr(s, a),
        addr_index(s, a) == i,
{
    assert(contains_addr(s, a));
}

/// Position of an address in a list.
pub fn find_addr(s: &Vec<String>, a: &String) -> (r: Option<usize>)
    ensures
        match r {
            Some(i) => i < s.len() && s@[i as int]@ == a@ && (addrs_unique(s@) ==> addr_index(
                s@,
                a@,
            ) == i),
            None => !contains_addr(s@, a@),
        },
{
    let mut i: usize = 0;
    while i < s.len()
        invariant
            i <= s.len(),
            forall|j: int| 0 <= j < i ==> #[trigger] s@[j]@ != a@,
        decreases s.len() - i,
    {
        if s[i] == *a {
            proof {
                if addrs_unique(s@) {
                    lemma_addr_index(s@, a@, i as int);
                }
            }
            return Some(i);
        }
        i = i + 1;
    }
    None
}

/// Sum of an asset's available balances over a list of holdings.
pub open spec fn sum_available(hs: Seq<Holding>, asset: Seq<char>) -> nat
    decreases hs.len(),
{
    if hs.len() == 0 {
        0
    } else {
        sum_available(hs.drop_last(), asset) + hs.last().available(asset)
    }
}

/// Sum of an asset's pending withdrawals over a list of holdings.
pub open spec fn sum_pending(hs: Seq<Holding>, asset: Seq<char>) -> nat
    decreases hs.len(),
{
    if hs.len() == 0 {
        0
    } else {
        sum_pending(hs.drop_last(), asset) + hs.last().pending(asset)
    }
}

/// Replacing one holding moves each sum by that holding's change.
pub proof fn lemma_sums_update(hs: Seq<Holding>, i: int, h: Holding, asset: Seq<char>)
    requires
        0 <= i < hs.len(),
    ensures
        sum_available(hs.update(i, h), asset) == sum_available(hs, asset) - hs[i].available(asset)
            + h.available(asset),
        sum_pending(hs.update(i, h), asset) == sum_pending(hs, asset) - hs[i].pending(asset)
            + h.pending(asset),
    decreases hs.len(),
{
    let u = hs.update(i, h);
    if i == hs.len() - 1 {
        assert(u.drop_last() =~= hs.drop_last());
    } else {
        assert(u.drop_last() =~= hs.drop_last().update(i, h));
        lemma_sums_update(hs.drop_last(), i, h, asset);
    }
}

/// Each holding's balance is part of the sum.
pub proof fn lemma_sum_bounds(hs: Seq<Holding>, i: int, asset: Seq<char>)
    requires
        0 <= i < hs.len(),
    ensures
        hs[i].available(asset) <= sum_available(hs, asset),
        hs[i].pending(asset) <= sum_pending(hs, asset),
    decreases hs.len(),
{
    if i < hs.len() - 1 {
        lemma_sum_bounds(hs.drop_last(), i, asset);
    }
}

/// A prefix of the holdings never holds more than all of them.
pub proof fn lemma_sums_prefix(hs: Seq<Holding>, n: int, asset: Seq<char>)
    requires
        0 <= n <= hs.len(),
    ensures
        sum_available(hs.take(n), asset) <= sum_available(hs, asset),
        sum_pending(hs.take(n), asset) <= sum_pending(hs, asset),
    decreases hs.len(),
{
    if n < hs.len() {
        assert(hs.drop_last().take(n) =~= hs.take(n));
        lemma_sums_prefix(hs.drop_last(), n, asset);
    } else {
        assert(hs.take(n) =~= hs);
    }
}

/// What the holders together have available of an asset, or `None` when
/// the sum does not fit in 128 bits.
pub fn checked_total_available(hs: &Vec<Holding>, asset: &String) -> (r: Option<u128>)
    requires
        forall|i: int| 0 <= i < hs.len() ==> (#[trigger] hs@[i]).wf(),
    ensures
        r == (if sum_available(hs@, asset@) <= u128::MAX {
            Some(sum_available(hs@, asset@) as u128)
        } else {
            None
        }),
{
    let mut sum: u128 = 0;
    let mut j: usize = 0;
    while j < hs.len()
        invariant
            j <= hs.len(),
            forall|i: int| 0 <= i < hs.len() ==> (#[trigger] hs@[i]).wf(),
            sum == sum_available(hs@.take(j as int), asset@),
        decreases hs.len() - j,
    {
        assert(hs@.take(j + 1).drop_last() =~= hs@.take(j as int));
        let a = entry_amount(&hs[j].balances, asset);
        if a > u128::MAX - sum {
            proof {
                lemma_sums_prefix(hs@, j + 1, asset@);
            }
            return None;
        }
        sum = sum + a;
        j = j + 1;
    }
    assert(hs@.take(hs.len() as int) =~= hs@);
    Some(sum)
}

/// What the holders together wait to withdraw of an asset, or `None` when
/// the sum does not fit in 128 bits.
pub fn checked_total_pending(hs: &Vec<Holding>, asset: &String) -> (r: Option<u128>)
    requires
        forall|i: int| 0 <= i < hs.len() ==> (#[trigger] hs@[i]).wf(),
    ensures
        r == (if sum_pending(hs@, asset@) <= u128::MAX {
            Some(sum_pending(hs@, asset@) as u128)
        } else {
            None
        }),
{
    let mut sum: u128 = 0;
    let mut j: usize = 0;
    while j < hs.len()
        invariant
            j <= hs.len(),
            forall|i: int| 0 <= i < hs.len() ==> (#[trigger] hs@[i]).wf(),
            sum == sum_pending(hs@.take(j as int), asset@),
        decreases hs.len() - j,
    {
        assert(hs@.take(j + 1).drop_last() =~= hs@.take(j as int));
        let a = entry_amount(&hs[j].unbondings, asset);
        if a > u128::MAX - sum {
            proof {
                lemma_sums_prefix(hs@, j + 1, asset@);
            }
            return None;
        }
        sum = sum + a;
        j = j + 1;
    }
    assert(hs@.take(hs.len() as int) =~= hs@);
    Some(sum)
}

} // verus!
