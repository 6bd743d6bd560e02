use vstd::prelude::*;
use crate::ledger::{checked_total_available, entry_amount, lemma_sum_bounds, sum_available, Holding};
use crate::math::{multiply_ratio, ratio, ONE_HUNDRED_PERCENT};
use crate::types::TreasuryError;

verus! {

/// Each holding's share of the holders' available balances of `asset`,
/// scaled by 10^18 and rounded down, in the order of `holdings`. The
/// holders must together hold some of the asset.
pub fn holding_shares(holdings: &Vec<Holding>, asset: &String) -> (r: Result<Vec<u128>, TreasuryError>)
    requires
        forall|i: int| 0 <= i < holdings.len() ==> (#[trigger] holdings@[i]).wf(),
        sum_available(holdings@, asset@) > 0,
    ensures
        ({
            let total = sum_available(holdings@, asset@);
            if total > u128::MAX {
                r == Err::<Vec<u128>, _>(TreasuryError::ArithmeticOverflow)
            } else {
                r matches Ok(shares) && shares@.len() == holdings@.len() && forall|i: int|
                    0 <= i < holdings@.len() ==> #[trigger] shares@[i] == ratio(
                        holdings@[i].available(asset@) as int,
                        ONE_HUNDRED_PERCENT as int,
                        total as int,
                    )
            }
        }),
{
    let total = match checked_total_available(holdings, asset) {
        Some(t) => t,
        None => {
            return Err(TreasuryError::ArithmeticOverflow);
        },
    };
    let mut shares: Vec<u128> = Vec::new();
    let mut j: usize = 0;
    while j < holdings.len()
        invariant
            j <= holdings.len(),
            total == sum_available(holdings@, asset@),
            total > 0,
            forall|i: int| 0 <= i < holdings.len() ==> (#[trigger] holdings@[i]).wf(),
            shares@.len() == j,
            forall|i: int|
                0 <= i < j ==> #[trigger] shares@[i] == ratio(
                    holdings@[i].available(asset@) as int,
                    ONE_HUNDRED_PERCENT as int,
                    total as int,
                ),
        decreases holdings.len() - j,
    {
        let amount = entry_amount(&holdings[j].balances, asset);
        proof {
            lemma_sum_bounds(holdings@, j as int, asset@);
            let a = amount as int;
            let t = total as int;
            let one = ONE_HUNDRED_PERCENT as int;
            assert(a * one <= t * one) by (nonlinear_arith)
                requires
                    0 <= a <= t,
                    one > 0,
            ;
            assert(a * one / t <= one) by (nonlinear_arith)
                requires
                    a * one <= t * one,
                    t > 0,
                    one > 0,
            ;
        }
        let share = multiply_ratio(amount, ONE_HUNDRED_PERCENT, total).unwrap();
        shares.push(share);
        j = j + 1;
    }
    Ok(shares)
}

} // verus!
