//! Shares accounting.
//!
//! LP shares of a bin are minted proportionally to the bin's total reserves:
//! the first depositor is seeded one share per token unit, later deposits
//! get `amount * shares / (reserve_x + reserve_y)` rounded down.

use vstd::prelude::*;
use crate::error::Error;
use crate::storage::{Bin, BinShares};
use crate::wide::{in_i128, wide_from_i128, wide_to_i128, wide_div_floor, i256_checked_mul};

verus! {

/// What a deposit of `in_amount` mints against a bin: the amount itself for
/// an empty bin, else its proportional share of the reserves, floored; an
/// error when the reserves overflow, are empty, or the result does not fit.
pub open spec fn s_shares_to_mint(shares: int, reserve_x: int, reserve_y: int, in_amount: int)
    -> Result<int, Error> {
    if shares == 0 {
        Ok(in_amount)
    } else if !in_i128(reserve_x + reserve_y) {
        Err(Error::ErrAddOverflow)
    } else if reserve_x + reserve_y <= 0 {
        Err(Error::ErrDivInternal)
    } else if in_i128((in_amount * shares) / (reserve_x + reserve_y)) {
        Ok((in_amount * shares) / (reserve_x + reserve_y))
    } else {
        Err(Error::ErrMulOverflow)
    }
}

/// Shares minted for a deposit of `in_amount` into a bin.
pub fn calculate_shares_to_mint(bin_shares: &BinShares, bin: &Bin, in_amount: i128)
    -> (r: Result<i128, Error>)
    ensures
        match s_shares_to_mint(
            bin_shares.shares as int, bin.reserve_x as int, bin.reserve_y as int,
            in_amount as int,
        ) {
            Ok(v) => r matches Ok(m) && m == v,
            Err(e) => r == Err::<i128, Error>(e),
        },
{
    if bin_shares.shares == 0 {
        return Ok(in_amount);
    }
    let total = match bin.reserve_x.checked_add(bin.reserve_y) {
        Some(t) => t,
        None => {
            return Err(Error::ErrAddOverflow);
        }
    };
    if total <= 0 {
        return Err(Error::ErrDivInternal);
    }
    let p = match i256_checked_mul(wide_from_i128(in_amount), wide_from_i128(bin_shares.shares)) {
        Some(w) => w,
        None => {
            proof {
                crate::wide::lemma_i128_product_fits(in_amount as int, bin_shares.shares as int);
                assert(false);
            }
            return Err(Error::ErrMulOverflow);
        }
    };
    let q = wide_div_floor(p, wide_from_i128(total));
    match wide_to_i128(q) {
        Some(v) => Ok(v),
        None => Err(Error::ErrMulOverflow),
    }
}

} // verus!
