use vstd::prelude::*;
use crate::amount::{Amount, amount_max, u512_checked_add, u512_checked_div, u512_checked_mul, u512_is_zero};

verus! {

/// A winner's payout: their own stake back, plus their share of the losing pool in
/// proportion to their part of the winning pool, rounded down. What rounding leaves
/// of the losing pool is not paid out. With an empty winning pool nobody won
/// anything.
pub open spec fn payout_spec(stake: int, winning_pool: int, losing_pool: int) -> int {
    if winning_pool == 0 {
        0
    } else {
        stake + stake * losing_pool / winning_pool
    }
}

/// Neither `stake * losing_pool` nor the payout exceeds 2^512 - 1.
pub open spec fn payout_fits(stake: nat, winning_pool: nat, losing_pool: nat) -> bool {
    &&& stake * losing_pool <= amount_max()
    &&& payout_spec(stake as int, winning_pool as int, losing_pool as int) <= amount_max()
}

/// Computes [`payout_spec`] for a staker with `stake` on the winning side.
/// Returns `None` when the product `stake * losing_pool` or the payout itself
/// exceeds 2^512 - 1.
pub fn payout_amount(stake: Amount, winning_pool: Amount, losing_pool: Amount) -> (r: Option<Amount>)
    requires
        stake.value() <= winning_pool.value(),
    ensures
        match r {
            Some(p) => payout_fits(stake.value(), winning_pool.value(), losing_pool.value())
                && p.value() == payout_spec(
                stake.value() as int,
                winning_pool.value() as int,
                losing_pool.value() as int,
            ),
            None => !payout_fits(stake.value(), winning_pool.value(), losing_pool.value()),
        },
{
    if u512_is_zero(&winning_pool) {
        assert(stake.value() * losing_pool.value() == 0) by (nonlinear_arith)
            requires
                stake.value() == 0,
        ;
        let zero = Amount::zero();
        proof {
            zero.lemma_bounded();
        }
        return Some(zero);
    }
    let product = match u512_checked_mul(stake, losing_pool) {
        Some(p) => p,
        None => return None,
    };
    let share = match u512_checked_div(product, winning_pool) {
        Some(q) => q,
        None => return None,
    };
    let r = u512_checked_add(stake, share);
    proof {
        product.lemma_bounded();
        if let Some(p) = r {
            p.lemma_bounded();
        }
    }
    r
}

} // verus!
