use vstd::prelude::*;

verus! {

/// Fixed-point unit for shares and tolerances: 10^18 stands for 1.0.
pub const ONE_HUNDRED_PERCENT: u128 = 1_000_000_000_000_000_000;

/// `value * numerator / denominator`, rounded down.
pub open spec fn ratio(value: int, numerator: int, denominator: int) -> int {
    value * numerator / denominator
}

/// Relies on `cosmwasm_std::Uint128::checked_multiply_ratio`: the product is
/// taken in 256 bits and divided with the result rounded down; it fails when
/// the denominator is zero or the quotient does not fit in 128 bits.
#[verifier::external_body]
pub(crate) fn multiply_ratio(value: u128, numerator: u128, denominator: u128) -> (r: Option<u128>)
    ensures
        r == (if denominator != 0 && ratio(value as int, numerator as int, denominator as int)
            <= u128::MAX {
            Some(ratio(value as int, numerator as int, denominator as int) as u128)
        } else {
            None
        }),
{
    match cosmwasm_std::Uint128::new(value).checked_multiply_ratio(numerator, denominator) {
        Ok(v) => Some(v.u128()),
        Err(_) => None,
    }
}

/// Sum of a list of amounts.
pub open spec fn seq_sum(s: Seq<u128>) -> nat
    decreases s.len(),
{
    if s.len() == 0 {
        0
    } else {
        seq_sum(s.drop_last()) + s.last() as nat
    }
}

pub proof fn lemma_seq_sum_prefix(s: Seq<u128>, n: int)
    requires
        0 <= n <= s.len(),
    ensures
        seq_sum(s.take(n)) <= seq_sum(s),
    decreases s.len(),
{
    if n < s.len() {
        assert(s.drop_last().take(n) =~= s.take(n));
        lemma_seq_sum_prefix(s.drop_last(), n);
    } else {
        assert(s.take(n) =~= s);
    }
}

/// Sum of a list of amounts, or `None` when it does not fit in 128 bits.
pub fn checked_sum(v: &Vec<u128>) -> (r: Option<u128>)
    ensures
        r == (if seq_sum(v@) <= u128::MAX {
            Some(seq_sum(v@) as u128)
        } else {
            None
        }),
{
    let mut sum: u128 = 0;
    let mut j: usize = 0;
    while j < v.len()
        invariant
            j <= v.len(),
            sum == seq_sum(v@.take(j as int)),
        decreases v.len() - j,
    {
        assert(v@.take(j + 1).drop_last() =~= v@.take(j as int));
        if v[j] > u128::MAX - sum {
            proof {
                lemma_seq_sum_prefix(v@, j + 1);
            }
            return None;
        }
        sum = sum + v[j];
        j = j + 1;
    }
    assert(v@.take(v.len() as int) =~= v@);
    Some(sum)
}

} // verus!
