//! The bin price curve.
//!
//! Bin `id` trades at `(1 + sign(id) * bin_step/10_000)^|id|` in 18-decimal
//! fixed point: X in terms of Y. When the quote token is X instead, the
//! reciprocal is taken, floor-rounded.

use vstd::prelude::*;
use crate::error::Error;
use crate::math::{BONE, MIN_CPOW_BASE, MAX_CPOW_BASE, c_pow, s_c_pow, s_powi, fixed_div_floor};
use crate::storage::Config;
use crate::wide::{Wide, w_val, wide_from_i128, wide_is_nonneg, wide_is_zero};

verus! {

/// The fixed-point base of the price curve: `1 + sign(id) * step/10_000`.
pub open spec fn spec_price_base(bin_step: int, id: int) -> int {
    if id > 0 {
        BONE as int + (bin_step * BONE) / 10_000
    } else if id < 0 {
        BONE as int - (bin_step * BONE) / 10_000
    } else {
        BONE as int
    }
}

/// What the curve evaluates to: the squaring power of the base at `|id|`,
/// or an error when the base leaves the accepted range or the power
/// overflows. The curve's exponent is a whole number of `BONE`s, so only
/// the integer-power path of `c_pow` is ever taken.
pub open spec fn s_price_from_bin(bin_step: int, id: int) -> Result<int, Error> {
    let base = spec_price_base(bin_step, id);
    if base < MIN_CPOW_BASE as int {
        Err(Error::ErrCPowBaseTooLow)
    } else if base > MAX_CPOW_BASE as int {
        Err(Error::ErrCPowBaseTooHigh)
    } else {
        match s_powi(base, (if id >= 0 { id } else { -id }) as nat) {
            Some(v) => Ok(v),
            None => Err(Error::ErrMulOverflow),
        }
    }
}

/// Price of bin `id` for a pool with the given step, in Y per X.
pub fn price_from_bin(bin_step: u32, id: i32, round_up: bool) -> (r: Result<Wide, Error>)
    ensures
        match s_price_from_bin(bin_step as int, id as int) {
            Ok(v) => r matches Ok(w) && w_val(w) == v,
            Err(e) => r == Err::<Wide, Error>(e),
        },
{
    proof {
        vstd::arithmetic::div_mod::lemma_div_pos_is_pos(
            (bin_step as int) * (BONE as int), 10_000,
        );
        vstd::arithmetic::div_mod::lemma_div_nonincreasing(
            (bin_step as int) * (BONE as int), 10_000,
        );
    }
    let step_scaled: i128 = ((bin_step as u128) * (BONE as u128) / 10_000) as i128;
    let base_raw: i128 = if id > 0 {
        BONE + step_scaled
    } else if id < 0 {
        BONE - step_scaled
    } else {
        BONE
    };
    let base = wide_from_i128(base_raw);
    let abs_id: i128 = if id >= 0 {
        id as i128
    } else {
        -(id as i128)
    };
    let exp = wide_from_i128(BONE * abs_id);
    proof {
        assert((BONE as int) * abs_id % (BONE as int) == 0 && (BONE as int) * abs_id / (
        BONE as int) == abs_id) by {
            vstd::arithmetic::div_mod::lemma_fundamental_div_mod_converse(
                (BONE as int) * abs_id, BONE as int, abs_id as int, 0,
            );
        }
    }
    let r = c_pow(&base, &exp, round_up);
    proof {
        let b = spec_price_base(bin_step as int, id as int);
        if MIN_CPOW_BASE as int <= b <= MAX_CPOW_BASE as int {
            // with a whole exponent the fractional factor drops out
            assert(s_c_pow(b, (BONE as int) * abs_id, round_up) == s_powi(b, abs_id as nat));
        }
    }
    r
}

/// Price of bin `id` expressed in the requested quote token: the raw curve
/// when quoting in Y, its floor-rounded reciprocal otherwise.
pub open spec fn s_price_from_bin_and_token(config: Config, id: int, token: u64)
    -> Result<int, Error> {
    if token == config.token_y {
        s_price_from_bin(config.bin_step as int, id)
    } else {
        match s_price_from_bin(config.bin_step as int, id) {
            Ok(p) => {
                if p <= 0 {
                    Err(Error::ErrDivInternal)
                } else {
                    Ok(((BONE as int) * (BONE as int)) / p)
                }
            }
            Err(e) => Err(e),
        }
    }
}

/// Price of bin `id` in units of the other token of the pair `token` buys.
pub fn price_from_bin_and_token(config: &Config, id: i32, token: u64) -> (r: Result<Wide, Error>)
    ensures
        match s_price_from_bin_and_token(*config, id as int, token) {
            Ok(v) => r matches Ok(w) && w_val(w) == v,
            Err(e) => r == Err::<Wide, Error>(e),
        },
{
    if token == config.token_y {
        price_from_bin(config.bin_step, id, false)
    } else {
        let p = match price_from_bin(config.bin_step, id, true) {
            Ok(w) => w,
            Err(e) => {
                return Err(e);
            }
        };
        if !wide_is_nonneg(&p) || wide_is_zero(&p) {
            return Err(Error::ErrDivInternal);
        }
        let bone = wide_from_i128(BONE);
        match fixed_div_floor(&bone, &p, &bone) {
            Ok(w) => Ok(w),
            Err(e) => {
                proof { assert(false); }
                Err(e)
            }
        }
    }
}

} // verus!
