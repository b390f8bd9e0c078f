//! Core of a concentrated-liquidity AMM for a two-token pool.
//!
//! Liquidity lives on a dense grid of price bins; each bin holds reserves of
//! one or both tokens at a fixed geometric price derived from its integer id.
//! The pool state (configuration, stored bin windows, share windows and user
//! positions) is held in [`Contract`], and the three user flows — batched
//! deposits/withdrawals and exact-input swaps — are verified transitions on
//! that state. Host concerns (authentication, token transfers, persistence)
//! stay outside this crate; callers act on the returned amount deltas.

use vstd::prelude::*;
use vstd::arithmetic::div_mod::{
    lemma_div_pos_is_pos, lemma_div_nonincreasing, lemma_div_is_ordered,
    lemma_div_is_ordered_by_denominator, lemma_div_multiples_vanish,
};
use vstd::arithmetic::mul::{lemma_mul_inequality, lemma_mul_nonnegative};

pub mod constants;
pub mod error;
pub mod wide;
pub mod math;
pub mod storage;
pub mod bin;
pub mod price;
pub mod shares;

use crate::constants::BIN_VEC_SIZE;
use crate::error::Error;
use crate::math::{BONE, FEE_SCALAR};
use crate::storage::{
    Bin, BinShares, Config, DepositArgs, Position, PositionKey, shares_sorted, shares_nonneg,
    shares_positive,
    find_assoc, spec_assoc_put, find_position, spec_position_put, assoc_get, assoc_put,
    position_get, position_put, lemma_assoc_put_entries, lemma_position_put_entries,
    raw_to_bin_vec, raw_to_shares_vec, bin_vec_to_raw, shares_vec_to_raw, spec_bin_to_raw,
    spec_decoded_bin, spec_vec_id_for_bin, spec_bin_slot, get_vec_id_for_bin,
    lemma_vec_id_slot_identity,
};
use crate::bin::{
    default_bin_vec, default_shares_vec, get_bin_from_vec, store_bin_in_vec, is_bin_in_vec,
    get_shares_from_position, store_shares_in_position, delete_shares_in_position,
    spec_find_shares, spec_upsert, spec_delete, lemma_upsert_sorted, lemma_upsert_entries,
    lemma_find_shares_props, get_bin_position_in_vec, lemma_upsert_find, lemma_delete_find,
    lemma_delete_sorted, lemma_delete_entries,
};
use crate::shares::{calculate_shares_to_mint, s_shares_to_mint};
use crate::price::{price_from_bin_and_token, s_price_from_bin_and_token};
use crate::wide::{
    Wide, w_val, in_i128, in_i256, ceil_div, wide_from_i128, wide_zero, wide_is_zero, wide_le,
    i256_checked_add, i256_checked_sub, lemma_i128_product_fits,
};
use crate::math::{fixed_mul_floor, fixed_mul_ceil, fixed_div_floor, downscale_floor,
    downscale_ceil, s_fmul_floor, s_fmul_ceil, s_fdiv_floor};

verus! {

/// A stored bin window is full-sized, each slot compressed to one or two
/// nonnegative reserves.
pub open spec fn raw_window_wf(w: Vec<Vec<i128>>) -> bool {
    &&& w@.len() == BIN_VEC_SIZE as int
    &&& forall|j: int| 0 <= j < w@.len() ==> 1 <= (#[trigger] w@[j])@.len() <= 2
    &&& forall|j: int, k: int|
        0 <= j < w@.len() && 0 <= k < w@[j]@.len() ==> (#[trigger] w@[j]@[k]) >= 0
}

/// A stored share window is full-sized and nonnegative.
pub open spec fn shares_window_wf(w: Vec<i128>) -> bool {
    &&& w@.len() == BIN_VEC_SIZE as int
    &&& forall|j: int| 0 <= j < w@.len() ==> (#[trigger] w@[j]) >= 0
}

/// A stored position is strictly ascending and holds no empty record.
pub open spec fn position_wf(p: Position) -> bool {
    shares_sorted(p.bin_shares@) && shares_positive(p.bin_shares@)
}

/// Window ids whose bin range stays inside `i32`.
pub open spec fn vec_id_in_range(id: int) -> bool {
    i32::MIN <= id * (BIN_VEC_SIZE as int) && id * (BIN_VEC_SIZE as int) + (
    BIN_VEC_SIZE as int) - 1 <= i32::MAX
}

/// Every stored bin window is well-formed and addressable.
pub open spec fn bins_store_wf(s: Seq<(i32, Vec<Vec<i128>>)>) -> bool {
    forall|i: int|
        0 <= i < s.len() ==> vec_id_in_range((#[trigger] s[i]).0 as int) && raw_window_wf(s[i].1)
}

/// Every stored share window is well-formed and addressable.
pub open spec fn shares_store_wf(s: Seq<(i32, Vec<i128>)>) -> bool {
    forall|i: int|
        0 <= i < s.len() ==> vec_id_in_range((#[trigger] s[i]).0 as int) && shares_window_wf(
            s[i].1,
        )
}

/// Every stored position is well-formed.
pub open spec fn positions_store_wf(s: Seq<(PositionKey, Position)>) -> bool {
    forall|i: int| 0 <= i < s.len() ==> position_wf((#[trigger] s[i]).1)
}

/// A decoded bin window for `vec_id`: full-sized, each slot carrying its
/// derived bin id and nonnegative reserves.
pub open spec fn bin_window_ok(v: Seq<Bin>, vec_id: int) -> bool {
    &&& v.len() == BIN_VEC_SIZE as int
    &&& forall|i: int|
        0 <= i < v.len() ==> (#[trigger] v[i]).bin_id as int == vec_id * (BIN_VEC_SIZE as int)
            + i && v[i].reserve_x >= 0 && v[i].reserve_y >= 0
}

/// A decoded share window for `vec_id`.
pub open spec fn shares_window_ok(v: Seq<BinShares>, vec_id: int) -> bool {
    &&& v.len() == BIN_VEC_SIZE as int
    &&& forall|i: int|
        0 <= i < v.len() ==> (#[trigger] v[i]).bin_id as int == vec_id * (BIN_VEC_SIZE as int)
            + i && v[i].shares >= 0
}

/// The raw window in force for `vec_id`: a pending (not yet committed)
/// window shadows the stored one.
pub open spec fn effective_raw<V>(store: Seq<(i32, V)>, overlay: Seq<(i32, V)>, id: i32)
    -> Option<V> {
    match find_assoc(overlay, id) {
        Some(w) => Some(w),
        None => find_assoc(store, id),
    }
}

/// Load and decode the bin window of `vec_id`, preferring pending writes,
/// defaulting to an empty window. Away from the active bin every returned
/// bin is one-sided.
fn load_bin_window(
    store: &Vec<(i32, Vec<Vec<i128>>)>,
    overlay: &Vec<(i32, Vec<Vec<i128>>)>,
    vec_id: i32,
    active_bin: i32,
) -> (r: Vec<Bin>)
    requires
        bins_store_wf(store@),
        bins_store_wf(overlay@),
        vec_id_in_range(vec_id as int),
    ensures
        bin_window_ok(r@, vec_id as int),
        forall|i: int| 0 <= i < r@.len() ==> ((#[trigger] r@[i]).bin_id > active_bin
            ==> r@[i].reserve_x == 0) && (r@[i].bin_id < active_bin ==> r@[i].reserve_y == 0),
        match effective_raw(store@, overlay@, vec_id) {
            Some(w) => forall|i: int| 0 <= i < BIN_VEC_SIZE as int ==> #[trigger] r@[i]
                == spec_decoded_bin(
                w@[i]@, ((vec_id as int) * (BIN_VEC_SIZE as int) + i) as i32, active_bin,
            ),
            None => forall|i: int| 0 <= i < BIN_VEC_SIZE as int ==> #[trigger] r@[i] == (Bin {
                bin_id: ((vec_id as int) * (BIN_VEC_SIZE as int) + i) as i32,
                reserve_x: 0,
                reserve_y: 0,
            }),
        },
{
    let picked: Option<&Vec<Vec<i128>>> = match assoc_get(overlay, vec_id) {
        Some(w) => Some(w),
        None => assoc_get(store, vec_id),
    };
    match picked {
        Some(raw) => {
            let r = raw_to_bin_vec(raw, vec_id, active_bin);
            proof {
                assert forall|i: int| 0 <= i < r@.len() implies (#[trigger] r@[i]).bin_id as int
                    == vec_id as int * (BIN_VEC_SIZE as int) + i && r@[i].reserve_x >= 0
                    && r@[i].reserve_y >= 0 && (r@[i].bin_id > active_bin ==> r@[i].reserve_x
                    == 0) && (r@[i].bin_id < active_bin ==> r@[i].reserve_y == 0) by {
                    assert(r@[i] == spec_decoded_bin(
                        raw@[i]@, ((vec_id as int) * (BIN_VEC_SIZE as int) + i) as i32,
                        active_bin,
                    ));
                    assert(raw_window_wf(*raw));
                    if raw@[i]@.len() >= 1 {
                        assert(raw@[i]@[0] >= 0);
                    }
                    if raw@[i]@.len() >= 2 {
                        assert(raw@[i]@[1] >= 0);
                    }
                }
            }
            r
        }
        None => default_bin_vec(vec_id),
    }
}

/// Load and decode the share window of `vec_id`, preferring pending writes,
/// defaulting to an empty window.
fn load_shares_window(
    store: &Vec<(i32, Vec<i128>)>,
    overlay: &Vec<(i32, Vec<i128>)>,
    vec_id: i32,
) -> (r: Vec<BinShares>)
    requires
        shares_store_wf(store@),
        shares_store_wf(overlay@),
        vec_id_in_range(vec_id as int),
    ensures
        shares_window_ok(r@, vec_id as int),
        match effective_raw(store@, overlay@, vec_id) {
            Some(w) => forall|i: int| 0 <= i < BIN_VEC_SIZE as int ==> #[trigger] r@[i]
                == (BinShares {
                bin_id: ((vec_id as int) * (BIN_VEC_SIZE as int) + i) as i32,
                shares: w@[i],
            }),
            None => forall|i: int| 0 <= i < BIN_VEC_SIZE as int ==> #[trigger] r@[i]
                == (BinShares {
                bin_id: ((vec_id as int) * (BIN_VEC_SIZE as int) + i) as i32,
                shares: 0,
            }),
        },
{
    let picked: Option<&Vec<i128>> = match assoc_get(overlay, vec_id) {
        Some(w) => Some(w),
        None => assoc_get(store, vec_id),
    };
    match picked {
        Some(raw) => {
            proof { assert(shares_window_wf(*raw)); }
            raw_to_shares_vec(raw, vec_id)
        }
        None => default_shares_vec(vec_id),
    }
}

/// Deep copy of a position's record list.
fn copy_position(p: &Position) -> (r: Position)
    ensures
        r.bin_shares@ == p.bin_shares@,
{
    let mut v: Vec<BinShares> = Vec::new();
    let mut i: usize = 0;
    while i < p.bin_shares.len()
        invariant
            0 <= i <= p.bin_shares@.len(),
            v@ == p.bin_shares@.take(i as int),
        decreases p.bin_shares@.len() - i as int,
    {
        v.push(p.bin_shares[i]);
        proof {
            assert(v@ =~= p.bin_shares@.take(i as int + 1));
        }
        i = i + 1;
    }
    proof {
        assert(p.bin_shares@.take(p.bin_shares@.len() as int) =~= p.bin_shares@);
    }
    Position { bin_shares: v }
}

/// How a deposit at one bin splits into token amounts: all X below the
/// active bin, all Y above it, and at the active bin in proportion to the
/// reserves (halved when the bin is empty).
pub open spec fn s_deposit_split(active_bin: i32, bin: Bin, amount: int)
    -> Result<(int, int), Error> {
    if bin.bin_id == active_bin {
        let total = bin.reserve_x + bin.reserve_y;
        if !in_i128(total) {
            Err(Error::ErrAddOverflow)
        } else if total == 0 {
            Ok((amount / 2, amount - amount / 2))
        } else if !in_i128(amount * (BONE as int)) || !in_i128(
            bin.reserve_x * (BONE as int),
        ) || !in_i128(total * (BONE as int)) {
            Err(Error::ErrMulOverflow)
        } else {
            let x = ((amount * (BONE as int)) * (bin.reserve_x * (BONE as int))) / (total * (
            BONE as int)) / (BONE as int);
            Ok((x, amount - x))
        }
    } else if bin.bin_id < active_bin {
        Ok((amount, 0))
    } else {
        Ok((0, amount))
    }
}

/// Split a deposit into its X and Y token amounts.
fn deposit_amounts(active_bin: i32, bin: &Bin, amount: i128) -> (r: Result<(i128, i128), Error>)
    requires
        amount > 0,
        bin.reserve_x >= 0,
        bin.reserve_y >= 0,
    ensures
        match s_deposit_split(active_bin, *bin, amount as int) {
            Ok(p) => r matches Ok(q) && q.0 == p.0 && q.1 == p.1 && 0 <= p.0 && 0 <= p.1 && p.0
                + p.1 == amount,
            Err(e) => r == Err::<(i128, i128), Error>(e),
        },
{
    if bin.bin_id == active_bin {
        let total = match bin.reserve_x.checked_add(bin.reserve_y) {
            Some(t) => t,
            None => {
                return Err(Error::ErrAddOverflow);
            }
        };
        if total == 0 {
            let half = ((amount as u128) / 2) as i128;
            proof {
                lemma_div_pos_is_pos(amount as int, 2);
                lemma_div_nonincreasing(amount as int, 2);
            }
            Ok((half, amount - half))
        } else {
            let a_up = match amount.checked_mul(BONE) {
                Some(v) => v,
                None => {
                    return Err(Error::ErrMulOverflow);
                }
            };
            let rx_up = match bin.reserve_x.checked_mul(BONE) {
                Some(v) => v,
                None => {
                    return Err(Error::ErrMulOverflow);
                }
            };
            let t_up = match total.checked_mul(BONE) {
                Some(v) => v,
                None => {
                    return Err(Error::ErrMulOverflow);
                }
            };
            let q1 = match fixed_mul_floor(
                &wide_from_i128(a_up), &wide_from_i128(rx_up), &wide_from_i128(t_up),
            ) {
                Ok(w) => w,
                Err(e) => {
                    proof {
                        lemma_i128_product_fits(a_up as int, rx_up as int);
                        assert(false);
                    }
                    return Err(e);
                }
            };
            proof {
                lemma_i128_product_fits(a_up as int, rx_up as int);
                lemma_mul_nonnegative(a_up as int, rx_up as int);
                lemma_mul_inequality(rx_up as int, t_up as int, a_up as int);
                vstd::arithmetic::mul::lemma_mul_is_commutative(rx_up as int, a_up as int);
                vstd::arithmetic::mul::lemma_mul_is_commutative(t_up as int, a_up as int);
                lemma_div_is_ordered(
                    (a_up as int) * (rx_up as int), (a_up as int) * (t_up as int), t_up as int,
                );
                lemma_div_multiples_vanish(a_up as int, t_up as int);
                lemma_div_pos_is_pos((a_up as int) * (rx_up as int), t_up as int);
                lemma_div_is_ordered(w_val(q1), a_up as int, BONE as int);
                lemma_div_multiples_vanish(amount as int, BONE as int);
                lemma_div_pos_is_pos(w_val(q1), BONE as int);
            }
            let x = match downscale_floor(&q1, BONE) {
                Ok(v) => v,
                Err(e) => {
                    proof { assert(false); }
                    return Err(e);
                }
            };
            Ok((x, amount - x))
        }
    } else if bin.bin_id < active_bin {
        Ok((amount, 0))
    } else {
        Ok((0, amount))
    }
}

/// How a share removal converts to token amounts: the removed fraction of
/// the bin's total shares, applied to each reserve and floored.
pub open spec fn s_withdraw_split(bin: Bin, total_shares: int, amount: int)
    -> Result<(int, int), Error> {
    if !in_i128(amount * (BONE as int)) || !in_i128(total_shares * (BONE as int)) {
        Err(Error::ErrMulOverflow)
    } else if total_shares <= 0 {
        Err(Error::ErrDivInternal)
    } else {
        let ratio = ((amount * (BONE as int)) * (BONE as int)) / (total_shares * (BONE as int));
        if !in_i128(bin.reserve_x * (BONE as int)) || !in_i128(bin.reserve_y * (BONE as int)) {
            Err(Error::ErrMulOverflow)
        } else {
            let x = (ratio * (bin.reserve_x * (BONE as int))) / (BONE as int) / (BONE as int);
            let y = (ratio * (bin.reserve_y * (BONE as int))) / (BONE as int) / (BONE as int);
            if !in_i128(x) || !in_i128(y) {
                Err(Error::ErrMathApprox)
            } else {
                Ok((x, y))
            }
        }
    }
}

/// Convert a share removal into the token amounts it returns.
fn withdraw_amounts(bin: &Bin, total_shares: i128, amount: i128)
    -> (r: Result<(i128, i128), Error>)
    requires
        amount > 0,
        bin.reserve_x >= 0,
        bin.reserve_y >= 0,
    ensures
        match s_withdraw_split(*bin, total_shares as int, amount as int) {
            Ok(p) => r matches Ok(q) && q.0 == p.0 && q.1 == p.1 && 0 <= p.0 && 0 <= p.1,
            Err(e) => r == Err::<(i128, i128), Error>(e),
        },
{
    let a_up = match amount.checked_mul(BONE) {
        Some(v) => v,
        None => {
            return Err(Error::ErrMulOverflow);
        }
    };
    let t_up = match total_shares.checked_mul(BONE) {
        Some(v) => v,
        None => {
            return Err(Error::ErrMulOverflow);
        }
    };
    if total_shares <= 0 {
        return Err(Error::ErrDivInternal);
    }
    let bone = wide_from_i128(BONE);
    let ratio = match fixed_div_floor(&wide_from_i128(a_up), &wide_from_i128(t_up), &bone) {
        Ok(w) => w,
        Err(e) => {
            proof {
                lemma_i128_product_fits(a_up as int, BONE as int);
                assert(false);
            }
            return Err(e);
        }
    };
    proof {
        lemma_mul_nonnegative(a_up as int, BONE as int);
        lemma_div_pos_is_pos((a_up as int) * (BONE as int), t_up as int);
        lemma_div_is_ordered_by_denominator((a_up as int) * (BONE as int), BONE as int,
            t_up as int);
        lemma_div_multiples_vanish(a_up as int, BONE as int);
        assert(0 <= w_val(ratio) <= a_up as int);
    }
    let rx_up = match bin.reserve_x.checked_mul(BONE) {
        Some(v) => v,
        None => {
            return Err(Error::ErrMulOverflow);
        }
    };
    let ry_up = match bin.reserve_y.checked_mul(BONE) {
        Some(v) => v,
        None => {
            return Err(Error::ErrMulOverflow);
        }
    };
    let xq = match fixed_mul_floor(&ratio, &wide_from_i128(rx_up), &bone) {
        Ok(w) => w,
        Err(e) => {
            proof {
                lemma_i128_product_fits(w_val(ratio), rx_up as int);
                assert(false);
            }
            return Err(e);
        }
    };
    let yq = match fixed_mul_floor(&ratio, &wide_from_i128(ry_up), &bone) {
        Ok(w) => w,
        Err(e) => {
            proof {
                lemma_i128_product_fits(w_val(ratio), ry_up as int);
                assert(false);
            }
            return Err(e);
        }
    };
    proof {
        lemma_mul_nonnegative(w_val(ratio), rx_up as int);
        lemma_mul_nonnegative(w_val(ratio), ry_up as int);
        lemma_div_pos_is_pos(w_val(ratio) * (rx_up as int), BONE as int);
        lemma_div_pos_is_pos(w_val(ratio) * (ry_up as int), BONE as int);
        lemma_div_pos_is_pos(w_val(xq), BONE as int);
        lemma_div_pos_is_pos(w_val(yq), BONE as int);
    }
    let x = match downscale_floor(&xq, BONE) {
        Ok(v) => v,
        Err(e) => {
            return Err(e);
        }
    };
    let y = match downscale_floor(&yq, BONE) {
        Ok(v) => v,
        Err(e) => {
            return Err(e);
        }
    };
    Ok((x, y))
}

/// Every `i32` bin id yields an addressable window id.
proof fn lemma_vec_id_range(bin_id: int)
    requires
        i32::MIN <= bin_id <= i32::MAX,
    ensures
        vec_id_in_range(spec_vec_id_for_bin(bin_id)),
{
    vstd::arithmetic::div_mod::lemma_fundamental_div_mod_converse(
        i32::MAX as int, 32, 67108863, 31,
    );
    vstd::arithmetic::div_mod::lemma_fundamental_div_mod_converse(
        i32::MIN as int, 32, -67108864, 0,
    );
    lemma_div_is_ordered(i32::MIN as int, bin_id, 32);
    lemma_div_is_ordered(bin_id, i32::MAX as int, 32);
}

/// A put of a well-formed window keeps the bin store well-formed.
proof fn lemma_bins_put_wf(s: Seq<(i32, Vec<Vec<i128>>)>, id: i32, val: Vec<Vec<i128>>)
    requires
        bins_store_wf(s),
        vec_id_in_range(id as int),
        raw_window_wf(val),
    ensures
        bins_store_wf(spec_assoc_put(s, id, val)),
{
    lemma_assoc_put_entries(s, id, val);
    let r = spec_assoc_put(s, id, val);
    assert forall|i: int| 0 <= i < r.len() implies vec_id_in_range((#[trigger] r[i]).0 as int)
        && raw_window_wf(r[i].1) by {
        if r[i] != (id, val) {
            let j = choose|j: int| 0 <= j < s.len() && s[j] == r[i];
            assert(vec_id_in_range(s[j].0 as int) && raw_window_wf(s[j].1));
        }
    }
}

/// A put of a well-formed window keeps the share store well-formed.
proof fn lemma_shares_put_wf(s: Seq<(i32, Vec<i128>)>, id: i32, val: Vec<i128>)
    requires
        shares_store_wf(s),
        vec_id_in_range(id as int),
        shares_window_wf(val),
    ensures
        shares_store_wf(spec_assoc_put(s, id, val)),
{
    lemma_assoc_put_entries(s, id, val);
    let r = spec_assoc_put(s, id, val);
    assert forall|i: int| 0 <= i < r.len() implies vec_id_in_range((#[trigger] r[i]).0 as int)
        && shares_window_wf(r[i].1) by {
        if r[i] != (id, val) {
            let j = choose|j: int| 0 <= j < s.len() && s[j] == r[i];
            assert(vec_id_in_range(s[j].0 as int) && shares_window_wf(s[j].1));
        }
    }
}

/// A put of a well-formed position keeps the position store well-formed.
proof fn lemma_positions_put_wf(s: Seq<(PositionKey, Position)>, key: PositionKey, val: Position)
    requires
        positions_store_wf(s),
        position_wf(val),
    ensures
        positions_store_wf(spec_position_put(s, key, val)),
{
    lemma_position_put_entries(s, key, val);
    let r = spec_position_put(s, key, val);
    assert forall|i: int| 0 <= i < r.len() implies position_wf((#[trigger] r[i]).1) by {
        if r[i] != (key, val) {
            let j = choose|j: int| 0 <= j < s.len() && s[j] == r[i];
            assert(position_wf(s[j].1));
        }
    }
}

/// Encoding a well-formed decoded window gives a well-formed stored one.
proof fn lemma_encode_bins_wf(v: Seq<Bin>, raw: Vec<Vec<i128>>, vec_id: int)
    requires
        bin_window_ok(v, vec_id),
        raw@.len() == BIN_VEC_SIZE as int,
        forall|i: int| 0 <= i < BIN_VEC_SIZE as int ==> (#[trigger] raw@[i])@ == spec_bin_to_raw(
            v[i],
        ),
    ensures
        raw_window_wf(raw),
{
    assert forall|j: int| 0 <= j < raw@.len() implies 1 <= (#[trigger] raw@[j])@.len() <= 2 by {
        assert(raw@[j]@ == spec_bin_to_raw(v[j]));
    }
    assert forall|j: int, k: int| 0 <= j < raw@.len() && 0 <= k < raw@[j]@.len() implies (
    #[trigger] raw@[j]@[k]) >= 0 by {
        assert(raw@[j]@ == spec_bin_to_raw(v[j]));
        assert(v[j].reserve_x >= 0 && v[j].reserve_y >= 0);
    }
}

/// Encoding a well-formed share window gives a well-formed stored one.
proof fn lemma_encode_shares_wf(v: Seq<BinShares>, raw: Vec<i128>, vec_id: int)
    requires
        shares_window_ok(v, vec_id),
        raw@.len() == BIN_VEC_SIZE as int,
        forall|i: int| 0 <= i < BIN_VEC_SIZE as int ==> (#[trigger] raw@[i]) == v[i].shares,
    ensures
        shares_window_wf(raw),
{
}

/// An upsert of a positive record keeps a position well-formed.
proof fn lemma_position_after_upsert(s: Seq<BinShares>, e: BinShares)
    requires
        shares_sorted(s),
        shares_positive(s),
        e.shares > 0,
    ensures
        shares_sorted(spec_upsert(s, e)),
        shares_positive(spec_upsert(s, e)),
{
    lemma_upsert_sorted(s, e);
    lemma_upsert_entries(s, e);
    let r = spec_upsert(s, e);
    assert forall|k: int| 0 <= k < r.len() implies (#[trigger] r[k]).shares > 0 by {
        if r[k] != e {
            let j = choose|j: int| 0 <= j < s.len() && s[j] == r[k];
            assert(s[j].shares > 0);
        }
    }
}

/// A delete keeps a position well-formed.
proof fn lemma_position_after_delete(s: Seq<BinShares>, bin_id: i32)
    requires
        shares_sorted(s),
        shares_positive(s),
    ensures
        shares_sorted(spec_delete(s, bin_id)),
        shares_positive(spec_delete(s, bin_id)),
{
    lemma_delete_sorted(s, bin_id);
    lemma_delete_entries(s, bin_id);
    let r = spec_delete(s, bin_id);
    assert forall|k: int| 0 <= k < r.len() implies (#[trigger] r[k]).shares > 0 by {
        let j = choose|j: int| 0 <= j < s.len() && s[j] == r[k];
        assert(s[j].shares > 0);
    }
}

/// No two stored positions share a key.
pub open spec fn positions_keys_unique(s: Seq<(PositionKey, Position)>) -> bool {
    forall|i: int, j: int| 0 <= i < j < s.len() ==> (#[trigger] s[i]).0 != (#[trigger] s[j]).0
}

/// The shares all users together hold at one bin.
pub open spec fn sum_user_shares(ps: Seq<(PositionKey, Position)>, b: i32) -> int
    decreases ps.len(),
{
    if ps.len() == 0 {
        0
    } else {
        spec_find_shares(ps[0].1.bin_shares@, b).shares + sum_user_shares(ps.skip(1), b)
    }
}

/// The shares all users but `key`'s owner hold at one bin.
pub open spec fn sum_except(ps: Seq<(PositionKey, Position)>, key: PositionKey, b: i32) -> int
    decreases ps.len(),
{
    if ps.len() == 0 {
        0
    } else {
        (if ps[0].0 == key {
            0
        } else {
            spec_find_shares(ps[0].1.bin_shares@, b).shares as int
        }) + sum_except(ps.skip(1), key, b)
    }
}

/// Where a key is absent, excluding it changes no sum.
proof fn lemma_sum_no_key(ps: Seq<(PositionKey, Position)>, key: PositionKey, b: i32)
    requires
        forall|j: int| 0 <= j < ps.len() ==> (#[trigger] ps[j]).0 != key,
    ensures
        sum_except(ps, key, b) == sum_user_shares(ps, b),
    decreases ps.len(),
{
    if ps.len() > 0 {
        assert forall|j: int| 0 <= j < ps.skip(1).len() implies (#[trigger] ps.skip(1)[j]).0
            != key by {
            assert(ps.skip(1)[j] == ps[j + 1]);
        }
        lemma_sum_no_key(ps.skip(1), key, b);
    }
}

/// Unique keys let the sum split into one user's record and the rest.
proof fn lemma_sum_split(ps: Seq<(PositionKey, Position)>, key: PositionKey, b: i32)
    requires
        positions_keys_unique(ps),
    ensures
        sum_user_shares(ps, b) == sum_except(ps, key, b) + (match find_position(ps, key) {
            Some(p) => spec_find_shares(p.bin_shares@, b).shares as int,
            None => 0,
        }),
    decreases ps.len(),
{
    if ps.len() > 0 {
        assert forall|i: int, j: int| 0 <= i < j < ps.skip(1).len() implies (#[trigger] ps.skip(
            1,
        )[i]).0 != (#[trigger] ps.skip(1)[j]).0 by {
            assert(ps.skip(1)[i] == ps[i + 1] && ps.skip(1)[j] == ps[j + 1]);
        }
        if ps[0].0 == key {
            assert forall|j: int| 0 <= j < ps.skip(1).len() implies (#[trigger] ps.skip(1)[j]).0
                != key by {
                assert(ps.skip(1)[j] == ps[j + 1]);
            }
            lemma_sum_no_key(ps.skip(1), key, b);
        } else {
            lemma_sum_split(ps.skip(1), key, b);
        }
    }
}

/// A put changes nothing in the sum over the other users.
proof fn lemma_sum_except_put(ps: Seq<(PositionKey, Position)>, key: PositionKey, val: Position,
    b: i32)
    ensures
        sum_except(spec_position_put(ps, key, val), key, b) == sum_except(ps, key, b),
    decreases ps.len(),
{
    if ps.len() == 0 {
        assert(spec_position_put(ps, key, val).skip(1) =~= ps);
    } else if ps[0].0 == key {
        assert(ps.update(0, (key, val)).skip(1) =~= ps.skip(1));
    } else {
        lemma_sum_except_put(ps.skip(1), key, val, b);
        let r = seq![ps[0]] + spec_position_put(ps.skip(1), key, val);
        assert(r.skip(1) =~= spec_position_put(ps.skip(1), key, val));
    }
}

/// Every key of a position put result is the new key or one of the old.
proof fn lemma_position_put_keys(s: Seq<(PositionKey, Position)>, key: PositionKey,
    val: Position)
    ensures
        forall|k: int| 0 <= k < spec_position_put(s, key, val).len() ==> (
        #[trigger] spec_position_put(s, key, val)[k]).0 == key || (exists|j: int|
            0 <= j < s.len() && s[j].0 == spec_position_put(s, key, val)[k].0),
    decreases s.len(),
{
    if s.len() == 0 {
    } else if s[0].0 == key {
    } else {
        lemma_position_put_keys(s.skip(1), key, val);
        let r = seq![s[0]] + spec_position_put(s.skip(1), key, val);
        assert forall|k: int| 0 <= k < r.len() implies (#[trigger] r[k]).0 == key || (exists|
        j: int| 0 <= j < s.len() && s[j].0 == r[k].0) by {
            if k == 0 {
                assert(s[0].0 == r[0].0);
            } else {
                assert(r[k] == spec_position_put(s.skip(1), key, val)[k - 1]);
                if r[k].0 != key {
                    let j = choose|j: int| 0 <= j < s.skip(1).len() && s.skip(1)[j].0 == r[k].0;
                    assert(s[j + 1].0 == r[k].0);
                }
            }
        }
    }
}

/// A position put never introduces a duplicate key.
proof fn lemma_position_put_unique(s: Seq<(PositionKey, Position)>, key: PositionKey,
    val: Position)
    requires
        positions_keys_unique(s),
    ensures
        positions_keys_unique(spec_position_put(s, key, val)),
    decreases s.len(),
{
    if s.len() == 0 {
    } else if s[0].0 == key {
    } else {
        assert forall|i: int, j: int| 0 <= i < j < s.skip(1).len() implies (#[trigger] s.skip(
            1,
        )[i]).0 != (#[trigger] s.skip(1)[j]).0 by {
            assert(s.skip(1)[i] == s[i + 1] && s.skip(1)[j] == s[j + 1]);
        }
        lemma_position_put_unique(s.skip(1), key, val);
        lemma_position_put_keys(s.skip(1), key, val);
        let r = seq![s[0]] + spec_position_put(s.skip(1), key, val);
        assert forall|i: int, j: int| 0 <= i < j < r.len() implies (#[trigger] r[i]).0 != (
        #[trigger] r[j]).0 by {
            if i == 0 {
                assert(r[j] == spec_position_put(s.skip(1), key, val)[j - 1]);
                if r[j].0 != key {
                    let k = choose|k: int| 0 <= k < s.skip(1).len() && s.skip(1)[k].0 == r[j].0;
                    assert(s[k + 1].0 == r[j].0);
                }
            } else {
                assert(r[i] == spec_position_put(s.skip(1), key, val)[i - 1]);
                assert(r[j] == spec_position_put(s.skip(1), key, val)[j - 1]);
            }
        }
    }
}

/// The window id of a bin, as a key.
pub open spec fn vec_id_key(b: i32) -> i32 {
    spec_vec_id_for_bin(b as int) as i32
}

/// The total shares recorded for one bin across a store and its pending
/// overlay; unstored bins total zero.
pub open spec fn eff_shares_total(
    store: Seq<(i32, Vec<i128>)>,
    overlay: Seq<(i32, Vec<i128>)>,
    b: i32,
) -> int {
    match effective_raw(store, overlay, vec_id_key(b)) {
        Some(w) => {
            if 0 <= spec_bin_slot(b as int) < w@.len() {
                w@[spec_bin_slot(b as int)] as int
            } else {
                0
            }
        }
        None => 0,
    }
}

/// A window in force in a well-formed store or overlay is full-sized.
proof fn lemma_eff_window_len(
    store: Seq<(i32, Vec<i128>)>,
    overlay: Seq<(i32, Vec<i128>)>,
    vid: i32,
)
    requires
        shares_store_wf(store),
        shares_store_wf(overlay),
    ensures
        effective_raw(store, overlay, vid) matches Some(w) ==> w@.len() == BIN_VEC_SIZE as int,
{
    crate::storage::lemma_find_assoc_in::<Vec<i128>>(overlay, vid);
    crate::storage::lemma_find_assoc_in::<Vec<i128>>(store, vid);
    if effective_raw(store, overlay, vid) is Some {
        let w = effective_raw(store, overlay, vid)->0;
        if find_assoc(overlay, vid) is Some {
            let j = choose|j: int| 0 <= j < overlay.len() && #[trigger] overlay[j] == (vid, w);
            assert(shares_window_wf(overlay[j].1));
        } else {
            let j = choose|j: int| 0 <= j < store.len() && #[trigger] store[j] == (vid, w);
            assert(shares_window_wf(store[j].1));
        }
    }
}

/// The total shares of one bin while a window is checked out for work.
pub open spec fn working_shares_total(
    store: Seq<(i32, Vec<i128>)>,
    overlay: Seq<(i32, Vec<i128>)>,
    cur_vec_id: i32,
    cur: Seq<BinShares>,
    b: i32,
) -> int {
    if vec_id_key(b) == cur_vec_id {
        if 0 <= spec_bin_slot(b as int) < cur.len() {
            cur[spec_bin_slot(b as int)].shares as int
        } else {
            0
        }
    } else {
        eff_shares_total(store, overlay, b)
    }
}

/// Whether a mathematical integer fits a 32-bit signed word.
pub open spec fn in_i32(v: int) -> bool {
    i32::MIN <= v <= i32::MAX
}

/// The contents of a stored window, slot by slot.
pub open spec fn window_views(w: Vec<Vec<i128>>) -> Seq<Seq<i128>> {
    Seq::new(w@.len(), |j: int| w@[j]@)
}

/// The contents of a bin store, entry by entry.
pub open spec fn bins_views(s: Seq<(i32, Vec<Vec<i128>>)>) -> Seq<(i32, Seq<Seq<i128>>)> {
    Seq::new(s.len(), |i: int| (s[i].0, window_views(s[i].1)))
}

/// The contents of a share store, entry by entry.
pub open spec fn shares_views(s: Seq<(i32, Vec<i128>)>) -> Seq<(i32, Seq<i128>)> {
    Seq::new(s.len(), |i: int| (s[i].0, s[i].1@))
}

/// The contents of a position store, entry by entry.
pub open spec fn position_views(s: Seq<(PositionKey, Position)>)
    -> Seq<(PositionKey, Seq<BinShares>)> {
    Seq::new(s.len(), |i: int| (s[i].0, s[i].1.bin_shares@))
}

/// What a stored bin window decodes to, slot by slot.
pub open spec fn s_decode_bins(raw: Seq<Seq<i128>>, vec_id: i32, active_bin: i32) -> Seq<Bin> {
    Seq::new(
        BIN_VEC_SIZE as nat,
        |i: int| spec_decoded_bin(
            raw[i], ((vec_id as int) * (BIN_VEC_SIZE as int) + i) as i32, active_bin,
        ),
    )
}

/// A fresh bin window, slot by slot.
pub open spec fn s_default_bins(vec_id: i32) -> Seq<Bin> {
    Seq::new(
        BIN_VEC_SIZE as nat,
        |i: int| Bin {
            bin_id: ((vec_id as int) * (BIN_VEC_SIZE as int) + i) as i32,
            reserve_x: 0,
            reserve_y: 0,
        },
    )
}

/// What a stored share window decodes to, slot by slot.
pub open spec fn s_decode_shares(raw: Seq<i128>, vec_id: i32) -> Seq<BinShares> {
    Seq::new(
        BIN_VEC_SIZE as nat,
        |i: int| BinShares {
            bin_id: ((vec_id as int) * (BIN_VEC_SIZE as int) + i) as i32,
            shares: raw[i],
        },
    )
}

/// A fresh share window, slot by slot.
pub open spec fn s_default_shares(vec_id: i32) -> Seq<BinShares> {
    Seq::new(
        BIN_VEC_SIZE as nat,
        |i: int| BinShares {
            bin_id: ((vec_id as int) * (BIN_VEC_SIZE as int) + i) as i32,
            shares: 0,
        },
    )
}

/// The decoded bin window in force for `vec_id`, defaulted when unstored.
pub open spec fn s_load_bins(
    store: Seq<(i32, Seq<Seq<i128>>)>,
    overlay: Seq<(i32, Seq<Seq<i128>>)>,
    vec_id: i32,
    active_bin: i32,
) -> Seq<Bin> {
    match effective_raw(store, overlay, vec_id) {
        Some(w) => s_decode_bins(w, vec_id, active_bin),
        None => s_default_bins(vec_id),
    }
}

/// The decoded share window in force for `vec_id`, defaulted when unstored.
pub open spec fn s_load_shares(
    store: Seq<(i32, Seq<i128>)>,
    overlay: Seq<(i32, Seq<i128>)>,
    vec_id: i32,
) -> Seq<BinShares> {
    match effective_raw(store, overlay, vec_id) {
        Some(w) => s_decode_shares(w, vec_id),
        None => s_default_shares(vec_id),
    }
}

/// The compressed form of a bin window, slot by slot.
pub open spec fn s_encode_bins(v: Seq<Bin>) -> Seq<Seq<i128>> {
    Seq::new(BIN_VEC_SIZE as nat, |i: int| spec_bin_to_raw(v[i]))
}

/// The raw form of a share window, slot by slot.
pub open spec fn s_encode_shares(v: Seq<BinShares>) -> Seq<i128> {
    Seq::new(BIN_VEC_SIZE as nat, |i: int| v[i].shares)
}

/// A store after its pending windows are written back, newest binding last.
pub open spec fn s_commit<V>(store: Seq<(i32, V)>, overlay: Seq<(i32, V)>) -> Seq<(i32, V)>
    decreases overlay.len(),
{
    if overlay.len() == 0 {
        store
    } else {
        s_commit(
            spec_assoc_put(store, overlay.last().0, overlay.last().1), overlay.drop_last(),
        )
    }
}

/// A position store after binding `key` to a record list.
pub open spec fn spec_position_put_view(
    s: Seq<(PositionKey, Seq<BinShares>)>,
    key: PositionKey,
    val: Seq<BinShares>,
) -> Seq<(PositionKey, Seq<BinShares>)>
    decreases s.len(),
{
    if s.len() == 0 {
        seq![(key, val)]
    } else if s[0].0 == key {
        s.update(0, (key, val))
    } else {
        seq![s[0]] + spec_position_put_view(s.skip(1), key, val)
    }
}

/// What one deposit does to its bin, the bin's shares, the caller's record
/// at that bin and the running deltas — or the first error, in the order
/// the arithmetic hits it.
pub open spec fn s_deposit_step(
    active_bin: i32,
    bin: Bin,
    bs: BinShares,
    us: BinShares,
    amount: i128,
    xd: i128,
    yd: i128,
) -> Result<(Bin, BinShares, BinShares, i128, i128), Error> {
    match s_deposit_split(active_bin, bin, amount as int) {
        Err(e) => Err(e),
        Ok(am) => match s_shares_to_mint(
            bs.shares as int, bin.reserve_x as int, bin.reserve_y as int, amount as int,
        ) {
            Err(e) => Err(e),
            Ok(mint) => {
                if !in_i128(xd + am.0) {
                    Err(Error::ErrAddOverflow)
                } else if !in_i128(yd + am.1) {
                    Err(Error::ErrAddOverflow)
                } else if !in_i128(bin.reserve_x + am.0) {
                    Err(Error::ErrAddOverflow)
                } else if !in_i128(bin.reserve_y + am.1) {
                    Err(Error::ErrAddOverflow)
                } else if !in_i128(bs.shares + mint) {
                    Err(Error::ErrAddOverflow)
                } else if !in_i128(us.shares + mint) {
                    Err(Error::ErrAddOverflow)
                } else {
                    Ok(
                        (
                            Bin {
                                bin_id: bin.bin_id,
                                reserve_x: (bin.reserve_x + am.0) as i128,
                                reserve_y: (bin.reserve_y + am.1) as i128,
                            },
                            BinShares { bin_id: bs.bin_id, shares: (bs.shares + mint) as i128 },
                            BinShares { bin_id: us.bin_id, shares: (us.shares + mint) as i128 },
                            (xd + am.0) as i128,
                            (yd + am.1) as i128,
                        ),
                    )
                }
            }
        },
    }
}

/// What one removal does to its bin, the bin's shares, the caller's record
/// at that bin and the running deltas — or the first error, in the order
/// the arithmetic hits it.
pub open spec fn s_withdraw_step(
    bin: Bin,
    bs: BinShares,
    us: BinShares,
    amount: i128,
    xd: i128,
    yd: i128,
) -> Result<(Bin, BinShares, BinShares, i128, i128), Error> {
    if us.shares < amount {
        Err(Error::ErrSubUnderflow)
    } else {
        match s_withdraw_split(bin, bs.shares as int, amount as int) {
            Err(e) => Err(e),
            Ok(outs) => {
                if !in_i128(xd - outs.0) {
                    Err(Error::ErrSubUnderflow)
                } else if !in_i128(yd - outs.1) {
                    Err(Error::ErrSubUnderflow)
                } else if outs.0 > bin.reserve_x || outs.1 > bin.reserve_y {
                    Err(Error::ErrSubUnderflow)
                } else if bs.shares < amount {
                    Err(Error::ErrSubUnderflow)
                } else {
                    Ok(
                        (
                            Bin {
                                bin_id: bin.bin_id,
                                reserve_x: (bin.reserve_x - outs.0) as i128,
                                reserve_y: (bin.reserve_y - outs.1) as i128,
                            },
                            BinShares {
                                bin_id: bs.bin_id,
                                shares: (bs.shares - amount) as i128,
                            },
                            BinShares {
                                bin_id: us.bin_id,
                                shares: (us.shares - amount) as i128,
                            },
                            (xd - outs.0) as i128,
                            (yd - outs.1) as i128,
                        ),
                    )
                }
            }
        }
    }
}

/// What one liquidity batch computes, applied action by action from action
/// `i` on: the pending windows, the checked-out window, the caller's
/// records and the running deltas — or the first error, exactly as the
/// batch loop would hit it.
pub open spec fn s_apply_actions(
    store_b: Seq<(i32, Seq<Seq<i128>>)>,
    store_s: Seq<(i32, Seq<i128>)>,
    active_bin: i32,
    bin_offset: i32,
    args: Seq<DepositArgs>,
    i: int,
    tb: Seq<(i32, Seq<Seq<i128>>)>,
    ts: Seq<(i32, Seq<i128>)>,
    cvid: i32,
    cbv: Seq<Bin>,
    csv: Seq<BinShares>,
    pos: Seq<BinShares>,
    xd: i128,
    yd: i128,
) -> Result<
    (Seq<(i32, Seq<Seq<i128>>)>, Seq<(i32, Seq<i128>)>, i32, Seq<Bin>, Seq<BinShares>,
    Seq<BinShares>, i128, i128),
    Error,
>
    decreases args.len() - i,
{
    if i >= args.len() {
        Ok((tb, ts, cvid, cbv, csv, pos, xd, yd))
    } else {
        let arg = args[i];
        if !in_i32(arg.bin_id_or_offset + bin_offset) {
            Err(Error::ErrAddOverflow)
        } else {
            let bin_id = (arg.bin_id_or_offset + bin_offset) as i32;
            let switch = spec_vec_id_for_bin(bin_id as int) != cvid as int;
            let tb1 = if switch {
                spec_assoc_put(tb, cvid, s_encode_bins(cbv))
            } else {
                tb
            };
            let ts1 = if switch {
                spec_assoc_put(ts, cvid, s_encode_shares(csv))
            } else {
                ts
            };
            let cvid1 = if switch {
                vec_id_key(bin_id)
            } else {
                cvid
            };
            let cbv1 = if switch {
                s_load_bins(store_b, tb1, cvid1, active_bin)
            } else {
                cbv
            };
            let csv1 = if switch {
                s_load_shares(store_s, ts1, cvid1)
            } else {
                csv
            };
            let sl = spec_bin_slot(bin_id as int);
            let us = spec_find_shares(pos, bin_id);
            if arg.amount <= 0 {
                Err(Error::ErrNegativeOrZero)
            } else if !arg.is_remove {
                match s_deposit_step(active_bin, cbv1[sl], csv1[sl], us, arg.amount, xd, yd) {
                    Err(e) => Err(e),
                    Ok(t) => {
                        let pos1 = if t.2.shares == 0 {
                            pos
                        } else {
                            spec_upsert(pos, t.2)
                        };
                        s_apply_actions(
                            store_b, store_s, active_bin, bin_offset, args, i + 1, tb1, ts1,
                            cvid1, cbv1.update(sl, t.0), csv1.update(sl, t.1), pos1, t.3, t.4,
                        )
                    }
                }
            } else {
                match s_withdraw_step(cbv1[sl], csv1[sl], us, arg.amount, xd, yd) {
                    Err(e) => Err(e),
                    Ok(t) => {
                        let pos1 = if t.2.shares == 0 {
                            spec_delete(pos, t.2.bin_id)
                        } else {
                            spec_upsert(pos, t.2)
                        };
                        s_apply_actions(
                            store_b, store_s, active_bin, bin_offset, args, i + 1, tb1, ts1,
                            cvid1, cbv1.update(sl, t.0), csv1.update(sl, t.1), pos1, t.3, t.4,
                        )
                    }
                }
            }
        }
    }
}

/// The tail of a batch: commit the pending windows over the old stores and
/// bind the caller's records, or pass the batch's error through.
pub open spec fn s_assemble(
    sb: Seq<(i32, Seq<Seq<i128>>)>,
    ss: Seq<(i32, Seq<i128>)>,
    positions: Seq<(PositionKey, Position)>,
    key: PositionKey,
    m: Result<
        (Seq<(i32, Seq<Seq<i128>>)>, Seq<(i32, Seq<i128>)>, i32, Seq<Bin>, Seq<BinShares>,
        Seq<BinShares>, i128, i128),
        Error,
    >,
) -> Result<
    (Seq<(i32, Seq<Seq<i128>>)>, Seq<(i32, Seq<i128>)>, Seq<(PositionKey, Seq<BinShares>)>,
    i128, i128),
    Error,
> {
    match m {
        Err(e) => Err(e),
        Ok(st) => Ok(
            (
                s_commit(sb, spec_assoc_put(st.0, st.2, s_encode_bins(st.3))),
                s_commit(ss, spec_assoc_put(st.1, st.2, s_encode_shares(st.4))),
                spec_position_put_view(position_views(positions), key, st.5),
                st.6,
                st.7,
            ),
        ),
    }
}

/// What one liquidity batch does to the pool: the stored bin and share
/// windows, the caller's position records and the returned deltas — or the
/// first error the batch hits, with nothing applied.
pub open spec fn s_modify_liquidity(
    pre: Contract,
    from: u64,
    position_id: i32,
    args: Seq<DepositArgs>,
    offset_from_active: bool,
) -> Result<
    (Seq<(i32, Seq<Seq<i128>>)>, Seq<(i32, Seq<i128>)>, Seq<(PositionKey, Seq<BinShares>)>,
    i128, i128),
    Error,
> {
    if args.len() == 0 {
        Err(Error::ErrEmptyBatch)
    } else {
        let bin_offset: i32 = if offset_from_active {
            pre.config.active_bin
        } else {
            0
        };
        if !in_i32(args[0].bin_id_or_offset + bin_offset) {
            Err(Error::ErrAddOverflow)
        } else {
            let key = PositionKey { owner: from, position_id };
            let pos0 = match find_position(pre.positions@, key) {
                Some(p) => p.bin_shares@,
                None => Seq::empty(),
            };
            let sb = bins_views(pre.bins@);
            let ss = shares_views(pre.shares@);
            let svid = vec_id_key((args[0].bin_id_or_offset + bin_offset) as i32);
            match s_apply_actions(
                sb, ss, pre.config.active_bin, bin_offset, args, 0, Seq::empty(), Seq::empty(),
                svid, s_load_bins(sb, Seq::empty(), svid, pre.config.active_bin),
                s_load_shares(ss, Seq::empty(), svid), pos0, 0, 0,
            ) {
                Err(e) => Err(e),
                Ok(st) => Ok(
                    (
                        s_commit(sb, spec_assoc_put(st.0, st.2, s_encode_bins(st.3))),
                        s_commit(ss, spec_assoc_put(st.1, st.2, s_encode_shares(st.4))),
                        spec_position_put_view(position_views(pre.positions@), key, st.5),
                        st.6,
                        st.7,
                    ),
                ),
            }
        }
    }
}

/// Writing a window into a store and taking contents commute.
proof fn lemma_bins_views_put(s: Seq<(i32, Vec<Vec<i128>>)>, id: i32, w: Vec<Vec<i128>>)
    ensures
        bins_views(spec_assoc_put(s, id, w)) == spec_assoc_put(bins_views(s), id,
            window_views(w)),
    decreases s.len(),
{
    if s.len() == 0 {
        assert(bins_views(spec_assoc_put(s, id, w)) =~~= spec_assoc_put(
            bins_views(s), id, window_views(w),
        ));
    } else if s[0].0 == id {
        assert(bins_views(s)[0].0 == id);
        assert(bins_views(s.update(0, (id, w))) =~~= bins_views(s).update(
            0, (id, window_views(w)),
        ));
    } else {
        lemma_bins_views_put(s.skip(1), id, w);
        assert(bins_views(s.skip(1)) =~~= bins_views(s).skip(1));
        assert(bins_views(s)[0].0 == s[0].0);
        assert(bins_views(seq![s[0]] + spec_assoc_put(s.skip(1), id, w)) =~~= seq![
            bins_views(s)[0]
        ] + spec_assoc_put(bins_views(s).skip(1), id, window_views(w)));
    }
}

/// Writing a share window into a store and taking contents commute.
proof fn lemma_shares_views_put(s: Seq<(i32, Vec<i128>)>, id: i32, w: Vec<i128>)
    ensures
        shares_views(spec_assoc_put(s, id, w)) == spec_assoc_put(shares_views(s), id, w@),
    decreases s.len(),
{
    if s.len() == 0 {
        assert(shares_views(spec_assoc_put(s, id, w)) =~~= spec_assoc_put(
            shares_views(s), id, w@,
        ));
    } else if s[0].0 == id {
        assert(shares_views(s)[0].0 == id);
        assert(shares_views(s.update(0, (id, w))) =~~= shares_views(s).update(0, (id, w@)));
    } else {
        lemma_shares_views_put(s.skip(1), id, w);
        assert(shares_views(s.skip(1)) =~~= shares_views(s).skip(1));
        assert(shares_views(s)[0].0 == s[0].0);
        assert(shares_views(seq![s[0]] + spec_assoc_put(s.skip(1), id, w)) =~~= seq![
            shares_views(s)[0]
        ] + spec_assoc_put(shares_views(s).skip(1), id, w@));
    }
}

/// Looking a window up and taking contents commute.
proof fn lemma_bins_views_find(s: Seq<(i32, Vec<Vec<i128>>)>, id: i32)
    ensures
        match find_assoc(s, id) {
            Some(w) => find_assoc(bins_views(s), id) == Some(window_views(w)),
            None => find_assoc(bins_views(s), id) is None,
        },
    decreases s.len(),
{
    if s.len() == 0 {
    } else {
        assert(bins_views(s)[0] == (s[0].0, window_views(s[0].1)));
        if s[0].0 != id {
            lemma_bins_views_find(s.skip(1), id);
            assert(bins_views(s.skip(1)) =~~= bins_views(s).skip(1));
        }
    }
}

/// Looking a share window up and taking contents commute.
proof fn lemma_shares_views_find(s: Seq<(i32, Vec<i128>)>, id: i32)
    ensures
        match find_assoc(s, id) {
            Some(w) => find_assoc(shares_views(s), id) == Some(w@),
            None => find_assoc(shares_views(s), id) is None,
        },
    decreases s.len(),
{
    if s.len() == 0 {
    } else {
        assert(shares_views(s)[0] == (s[0].0, s[0].1@));
        if s[0].0 != id {
            lemma_shares_views_find(s.skip(1), id);
            assert(shares_views(s.skip(1)) =~~= shares_views(s).skip(1));
        }
    }
}

/// Binding a position and taking contents commute.
proof fn lemma_position_views_put(s: Seq<(PositionKey, Position)>, key: PositionKey,
    val: Position)
    ensures
        position_views(spec_position_put(s, key, val)) == spec_position_put_view(
            position_views(s), key, val.bin_shares@,
        ),
    decreases s.len(),
{
    if s.len() == 0 {
        assert(position_views(spec_position_put(s, key, val)) =~~= spec_position_put_view(
            position_views(s), key, val.bin_shares@,
        ));
    } else if s[0].0 == key {
        assert(position_views(s)[0].0 == key);
        assert(position_views(s.update(0, (key, val))) =~~= position_views(s).update(
            0, (key, val.bin_shares@),
        ));
    } else {
        lemma_position_views_put(s.skip(1), key, val);
        assert(position_views(s.skip(1)) =~~= position_views(s).skip(1));
        assert(position_views(s)[0].0 == s[0].0);
        assert(position_views(seq![s[0]] + spec_position_put(s.skip(1), key, val)) =~~= seq![
            position_views(s)[0]
        ] + spec_position_put_view(position_views(s).skip(1), key, val.bin_shares@));
    }
}

/// A bin window in force in a well-formed store or overlay is full-sized.
proof fn lemma_eff_bin_window_len(
    store: Seq<(i32, Vec<Vec<i128>>)>,
    overlay: Seq<(i32, Vec<Vec<i128>>)>,
    vid: i32,
)
    requires
        bins_store_wf(store),
        bins_store_wf(overlay),
    ensures
        effective_raw(store, overlay, vid) matches Some(w) ==> w@.len() == BIN_VEC_SIZE as int,
{
    crate::storage::lemma_find_assoc_in::<Vec<Vec<i128>>>(overlay, vid);
    crate::storage::lemma_find_assoc_in::<Vec<Vec<i128>>>(store, vid);
    if effective_raw(store, overlay, vid) is Some {
        let w = effective_raw(store, overlay, vid)->0;
        if find_assoc(overlay, vid) is Some {
            let j = choose|j: int| 0 <= j < overlay.len() && #[trigger] overlay[j] == (vid, w);
            assert(raw_window_wf(overlay[j].1));
        } else {
            let j = choose|j: int| 0 <= j < store.len() && #[trigger] store[j] == (vid, w);
            assert(raw_window_wf(store[j].1));
        }
    }
}

/// What the bin-window loader returns is the mirror's load of the same
/// stores' contents.
proof fn lemma_load_bins_matches(
    store: Seq<(i32, Vec<Vec<i128>>)>,
    overlay: Seq<(i32, Vec<Vec<i128>>)>,
    vec_id: i32,
    active_bin: i32,
    r: Seq<Bin>,
)
    requires
        bins_store_wf(store),
        bins_store_wf(overlay),
        r.len() == BIN_VEC_SIZE as int,
        match effective_raw(store, overlay, vec_id) {
            Some(w) => forall|i: int| 0 <= i < BIN_VEC_SIZE as int ==> #[trigger] r[i]
                == spec_decoded_bin(
                w@[i]@, ((vec_id as int) * (BIN_VEC_SIZE as int) + i) as i32, active_bin,
            ),
            None => forall|i: int| 0 <= i < BIN_VEC_SIZE as int ==> #[trigger] r[i] == (Bin {
                bin_id: ((vec_id as int) * (BIN_VEC_SIZE as int) + i) as i32,
                reserve_x: 0,
                reserve_y: 0,
            }),
        },
    ensures
        r == s_load_bins(bins_views(store), bins_views(overlay), vec_id, active_bin),
{
    lemma_bins_views_find(overlay, vec_id);
    lemma_bins_views_find(store, vec_id);
    lemma_eff_bin_window_len(store, overlay, vec_id);
    if effective_raw(store, overlay, vec_id) is Some {
        let w = effective_raw(store, overlay, vec_id)->0;
        assert(effective_raw(bins_views(store), bins_views(overlay), vec_id) == Some(
            window_views(w),
        ));
        assert forall|i: int| 0 <= i < BIN_VEC_SIZE as int implies #[trigger] window_views(w)[i]
            == w@[i]@ by {}
        assert(r =~= s_decode_bins(window_views(w), vec_id, active_bin));
    } else {
        assert(effective_raw(bins_views(store), bins_views(overlay), vec_id)
            is None);
        assert(r =~= s_default_bins(vec_id));
    }
}

/// What the share-window loader returns is the mirror's load of the same
/// stores' contents.
proof fn lemma_load_shares_matches(
    store: Seq<(i32, Vec<i128>)>,
    overlay: Seq<(i32, Vec<i128>)>,
    vec_id: i32,
    r: Seq<BinShares>,
)
    requires
        shares_store_wf(store),
        shares_store_wf(overlay),
        r.len() == BIN_VEC_SIZE as int,
        match effective_raw(store, overlay, vec_id) {
            Some(w) => forall|i: int| 0 <= i < BIN_VEC_SIZE as int ==> #[trigger] r[i]
                == (BinShares {
                bin_id: ((vec_id as int) * (BIN_VEC_SIZE as int) + i) as i32,
                shares: w@[i],
            }),
            None => forall|i: int| 0 <= i < BIN_VEC_SIZE as int ==> #[trigger] r[i]
                == (BinShares {
                bin_id: ((vec_id as int) * (BIN_VEC_SIZE as int) + i) as i32,
                shares: 0,
            }),
        },
    ensures
        r == s_load_shares(shares_views(store), shares_views(overlay), vec_id),
{
    lemma_shares_views_find(overlay, vec_id);
    lemma_shares_views_find(store, vec_id);
    if effective_raw(store, overlay, vec_id) is Some {
        let w = effective_raw(store, overlay, vec_id)->0;
        assert(effective_raw(shares_views(store), shares_views(overlay), vec_id) == Some(w@));
        assert(r =~= s_decode_shares(w@, vec_id));
    } else {
        assert(effective_raw(shares_views(store), shares_views(overlay), vec_id)
            is None);
        assert(r =~= s_default_shares(vec_id));
    }
}

/// Apply one deposit to its bin: split the amount, mint shares, and move
/// the running deltas. Returns exactly what [`s_deposit_step`] computes.
fn apply_deposit(
    active_bin: i32,
    bin: Bin,
    bin_shares: BinShares,
    user_shares: BinShares,
    amount: i128,
    x_delta: i128,
    y_delta: i128,
) -> (r: Result<(Bin, BinShares, BinShares, i128, i128), Error>)
    requires
        amount > 0,
        bin.reserve_x >= 0,
        bin.reserve_y >= 0,
        bin_shares.shares >= 0,
        user_shares.shares >= 0,
    ensures
        r == s_deposit_step(active_bin, bin, bin_shares, user_shares, amount, x_delta,
            y_delta),
        r matches Ok(t) ==> t.0.bin_id == bin.bin_id && t.1.bin_id == bin_shares.bin_id
            && t.2.bin_id == user_shares.bin_id && t.0.reserve_x >= 0 && t.0.reserve_y >= 0
            && t.1.shares >= 0 && t.2.shares >= user_shares.shares && t.1.shares as int
            - bin_shares.shares as int == t.2.shares as int - user_shares.shares as int,
{
    let amounts = match deposit_amounts(active_bin, &bin, amount) {
        Ok(p) => p,
        Err(e) => {
            return Err(e);
        }
    };
    let shares_to_mint = match calculate_shares_to_mint(&bin_shares, &bin, amount) {
        Ok(v) => v,
        Err(e) => {
            return Err(e);
        }
    };
    proof {
        if bin_shares.shares != 0 {
            lemma_mul_nonnegative(amount as int, bin_shares.shares as int);
            lemma_div_pos_is_pos(
                (amount as int) * (bin_shares.shares as int),
                bin.reserve_x as int + bin.reserve_y as int,
            );
        }
    }
    let xd = match x_delta.checked_add(amounts.0) {
        Some(v) => v,
        None => {
            return Err(Error::ErrAddOverflow);
        }
    };
    let yd = match y_delta.checked_add(amounts.1) {
        Some(v) => v,
        None => {
            return Err(Error::ErrAddOverflow);
        }
    };
    let rx = match bin.reserve_x.checked_add(amounts.0) {
        Some(v) => v,
        None => {
            return Err(Error::ErrAddOverflow);
        }
    };
    let ry = match bin.reserve_y.checked_add(amounts.1) {
        Some(v) => v,
        None => {
            return Err(Error::ErrAddOverflow);
        }
    };
    let bs = match bin_shares.shares.checked_add(shares_to_mint) {
        Some(v) => v,
        None => {
            return Err(Error::ErrAddOverflow);
        }
    };
    let us = match user_shares.shares.checked_add(shares_to_mint) {
        Some(v) => v,
        None => {
            return Err(Error::ErrAddOverflow);
        }
    };
    Ok(
        (
            Bin { bin_id: bin.bin_id, reserve_x: rx, reserve_y: ry },
            BinShares { bin_id: bin_shares.bin_id, shares: bs },
            BinShares { bin_id: user_shares.bin_id, shares: us },
            xd,
            yd,
        ),
    )
}

/// Apply one removal to its bin: convert the shares to token amounts,
/// burn them, and move the running deltas. Returns exactly what
/// [`s_withdraw_step`] computes.
fn apply_withdraw(
    bin: Bin,
    bin_shares: BinShares,
    user_shares: BinShares,
    amount: i128,
    x_delta: i128,
    y_delta: i128,
) -> (r: Result<(Bin, BinShares, BinShares, i128, i128), Error>)
    requires
        amount > 0,
        bin.reserve_x >= 0,
        bin.reserve_y >= 0,
        user_shares.shares >= 0,
    ensures
        r == s_withdraw_step(bin, bin_shares, user_shares, amount, x_delta, y_delta),
        r matches Ok(t) ==> t.0.bin_id == bin.bin_id && t.1.bin_id == bin_shares.bin_id
            && t.2.bin_id == user_shares.bin_id && t.0.reserve_x >= 0 && t.0.reserve_y >= 0
            && t.1.shares >= 0 && t.2.shares >= 0 && t.1.shares as int
            - bin_shares.shares as int == t.2.shares as int - user_shares.shares as int,
{
    if user_shares.shares < amount {
        return Err(Error::ErrSubUnderflow);
    }
    let outs = match withdraw_amounts(&bin, bin_shares.shares, amount) {
        Ok(p) => p,
        Err(e) => {
            return Err(e);
        }
    };
    let xd = match x_delta.checked_sub(outs.0) {
        Some(v) => v,
        None => {
            return Err(Error::ErrSubUnderflow);
        }
    };
    let yd = match y_delta.checked_sub(outs.1) {
        Some(v) => v,
        None => {
            return Err(Error::ErrSubUnderflow);
        }
    };
    if outs.0 > bin.reserve_x || outs.1 > bin.reserve_y {
        return Err(Error::ErrSubUnderflow);
    }
    if bin_shares.shares < amount {
        return Err(Error::ErrSubUnderflow);
    }
    Ok(
        (
            Bin {
                bin_id: bin.bin_id,
                reserve_x: bin.reserve_x - outs.0,
                reserve_y: bin.reserve_y - outs.1,
            },
            BinShares { bin_id: bin_shares.bin_id, shares: bin_shares.shares - amount },
            BinShares { bin_id: user_shares.bin_id, shares: user_shares.shares - amount },
            xd,
            yd,
        ),
    )
}

/// The smallest and largest stored window ids folded left, as the bounds
/// scan computes them.
pub open spec fn s_bounds_from(s: Seq<(i32, Vec<Vec<i128>>)>, i: int, lo: i32, hi: i32)
    -> (i32, i32)
    decreases s.len() - i,
{
    if i < 0 || i >= s.len() {
        (lo, hi)
    } else {
        s_bounds_from(
            s,
            i + 1,
            if s[i].0 < lo { s[i].0 } else { lo },
            if s[i].0 > hi { s[i].0 } else { hi },
        )
    }
}

/// What trading against one bin does: the refilled bin, the input still to
/// spend, the accumulated output and whether the trade completed — or the
/// first error, in the order the arithmetic hits it.
pub open spec fn s_swap_bin_step(cfg: Config, in_token: u64, bin: Bin, rem: int, out: int)
    -> Result<(Bin, int, int, bool), Error> {
    let is_x_in = in_token == cfg.token_x;
    match s_price_from_bin_and_token(cfg, bin.bin_id as int, in_token) {
        Err(e) => Err(e),
        Ok(price) => {
            let fc = s_fmul_ceil(price, (cfg.fee as int) * (FEE_SCALAR as int), BONE as int);
            if cfg.fee != 0 && fc is None {
                Err(Error::ErrMulOverflow)
            } else if cfg.fee != 0 && !in_i256(price - fc->0) {
                Err(Error::ErrSubUnderflow)
            } else {
                let pwf = if cfg.fee == 0 {
                    price
                } else {
                    price - fc->0
                };
                match s_fmul_floor(pwf, rem, BONE as int) {
                    None => Err(Error::ErrMulOverflow),
                    Some(potential) => {
                        let opp = if is_x_in {
                            bin.reserve_y as int
                        } else {
                            bin.reserve_x as int
                        };
                        if !in_i128(opp * (BONE as int)) {
                            Err(Error::ErrMulOverflow)
                        } else {
                            let sr = opp * (BONE as int);
                            if potential <= sr {
                                if !in_i256(out + potential) {
                                    Err(Error::ErrAddOverflow)
                                } else if !in_i128(rem / (BONE as int)) {
                                    Err(Error::ErrMathApprox)
                                } else if !in_i256(sr - potential) {
                                    Err(Error::ErrSubUnderflow)
                                } else if !in_i128(ceil_div(sr - potential, BONE as int)) {
                                    Err(Error::ErrMathApprox)
                                } else {
                                    let old_in = if is_x_in {
                                        bin.reserve_x as int
                                    } else {
                                        bin.reserve_y as int
                                    };
                                    if !in_i128(old_in + rem / (BONE as int)) {
                                        Err(Error::ErrAddOverflow)
                                    } else {
                                        let nb = if is_x_in {
                                            Bin {
                                                bin_id: bin.bin_id,
                                                reserve_x: (old_in + rem / (
                                                BONE as int)) as i128,
                                                reserve_y: ceil_div(
                                                    sr - potential, BONE as int,
                                                ) as i128,
                                            }
                                        } else {
                                            Bin {
                                                bin_id: bin.bin_id,
                                                reserve_y: (old_in + rem / (
                                                BONE as int)) as i128,
                                                reserve_x: ceil_div(
                                                    sr - potential, BONE as int,
                                                ) as i128,
                                            }
                                        };
                                        Ok((nb, 0, out + potential, true))
                                    }
                                }
                            } else {
                                if !in_i256(out + sr) {
                                    Err(Error::ErrAddOverflow)
                                } else {
                                    match s_fdiv_floor(sr, potential, BONE as int) {
                                        None => Err(Error::ErrMulOverflow),
                                        Some(ratio) => match s_fmul_ceil(
                                            ratio, rem, BONE as int,
                                        ) {
                                            None => Err(Error::ErrMulOverflow),
                                            Some(consumed) => {
                                                if !in_i256(rem - consumed) {
                                                    Err(Error::ErrSubUnderflow)
                                                } else if !in_i128(ceil_div(
                                                    consumed, BONE as int,
                                                )) {
                                                    Err(Error::ErrMathApprox)
                                                } else {
                                                    let old_in = if is_x_in {
                                                        bin.reserve_x as int
                                                    } else {
                                                        bin.reserve_y as int
                                                    };
                                                    if !in_i128(old_in + ceil_div(
                                                        consumed, BONE as int,
                                                    )) {
                                                        Err(Error::ErrAddOverflow)
                                                    } else {
                                                        let nb = if is_x_in {
                                                            Bin {
                                                                bin_id: bin.bin_id,
                                                                reserve_x: (old_in + ceil_div(
                                                                    consumed, BONE as int,
                                                                )) as i128,
                                                                reserve_y: 0,
                                                            }
                                                        } else {
                                                            Bin {
                                                                bin_id: bin.bin_id,
                                                                reserve_y: (old_in + ceil_div(
                                                                    consumed, BONE as int,
                                                                )) as i128,
                                                                reserve_x: 0,
                                                            }
                                                        };
                                                        Ok((nb, rem - consumed, out + sr,
                                                        false))
                                                    }
                                                }
                                            }
                                        },
                                    }
                                }
                            }
                        }
                    }
                }
            }
        }
    }
}

/// What the swap walk computes from one machine state on: the pending bin
/// windows, the last window and bin used and the accumulated output — or
/// the first error, exactly as the traversal would hit it. A slot out of
/// range flushes the window and hops to the next one; a completed trade
/// leaves the slot range to flush and stop.
pub open spec fn s_swap_walk(
    sb: Seq<(i32, Seq<Seq<i128>>)>,
    cfg: Config,
    in_token: u64,
    lo: i32,
    hi: i32,
    tb: Seq<(i32, Seq<Seq<i128>>)>,
    cvid: i32,
    cbv: Seq<Bin>,
    i: int,
    cur_bin_id: i32,
    rem: int,
    out: int,
) -> Result<(Seq<(i32, Seq<Seq<i128>>)>, i32, i32, int), Error>
    decreases
        (if in_token == cfg.token_x { hi - cvid } else { cvid - lo }),
        (if in_token == cfg.token_x { BIN_VEC_SIZE as int - i } else { i + 1 }),
    when lo <= cvid <= hi && -1 <= i <= BIN_VEC_SIZE as int
{
    let is_x_in = in_token == cfg.token_x;
    let step: int = if is_x_in {
        1
    } else {
        -1
    };
    if i < 0 || i >= BIN_VEC_SIZE as int {
        let tb1 = spec_assoc_put(tb, cvid, s_encode_bins(cbv));
        if rem == 0 {
            Ok((tb1, cvid, cur_bin_id, out))
        } else if is_x_in && cvid >= hi {
            Err(Error::ErrInsufficientLiquidity)
        } else if !is_x_in && cvid <= lo {
            Err(Error::ErrInsufficientLiquidity)
        } else {
            let cvid1 = if is_x_in {
                (cvid + 1) as i32
            } else {
                (cvid - 1) as i32
            };
            if !in_i32(cur_bin_id + step) {
                Err(Error::ErrAddOverflow)
            } else {
                let cb1 = (cur_bin_id + step) as i32;
                s_swap_walk(
                    sb, cfg, in_token, lo, hi, tb1, cvid1,
                    s_load_bins(sb, tb1, cvid1, cfg.active_bin), spec_bin_slot(cb1 as int),
                    cb1, rem, out,
                )
            }
        }
    } else {
        let bin = cbv[i];
        let opp = if is_x_in {
            bin.reserve_y
        } else {
            bin.reserve_x
        };
        if opp == 0 {
            s_swap_walk(
                sb, cfg, in_token, lo, hi, tb, cvid, cbv, i + step, cur_bin_id, rem, out,
            )
        } else {
            match s_swap_bin_step(cfg, in_token, bin, rem, out) {
                Err(e) => Err(e),
                Ok(t) => {
                    if t.3 {
                        s_swap_walk(
                            sb, cfg, in_token, lo, hi, tb, cvid, cbv.update(i, t.0),
                            if is_x_in { BIN_VEC_SIZE as int } else { -1 }, bin.bin_id, 0,
                            t.2,
                        )
                    } else {
                        s_swap_walk(
                            sb, cfg, in_token, lo, hi, tb, cvid, cbv.update(i, t.0), i + step,
                            bin.bin_id, t.1, t.2,
                        )
                    }
                }
            }
        }
    }
}

/// The tail of a swap: check and floor the output, then commit the pending
/// windows — or pass the walk's error through.
pub open spec fn s_swap_assemble(
    sb: Seq<(i32, Seq<Seq<i128>>)>,
    min_amount_out: i128,
    m: Result<(Seq<(i32, Seq<Seq<i128>>)>, i32, i32, int), Error>,
) -> Result<(Seq<(i32, Seq<Seq<i128>>)>, i32, i128), Error> {
    match m {
        Err(e) => Err(e),
        Ok(st) => {
            if !in_i128(st.3 / (BONE as int)) {
                Err(Error::ErrMathApprox)
            } else if st.3 / (BONE as int) < min_amount_out {
                Err(Error::ErrInsufficientOutput)
            } else {
                Ok((s_commit(sb, st.0), st.2, (st.3 / (BONE as int)) as i128))
            }
        }
    }
}

/// What one exact-input swap does to the pool: the stored bin windows, the
/// new active bin and the returned output amount — or the first error the
/// traversal hits, with nothing applied.
pub open spec fn s_swap_exact_amount_in(
    pre: Contract,
    amount_in: i128,
    min_amount_out: i128,
    in_token: u64,
) -> Result<(Seq<(i32, Seq<Seq<i128>>)>, i32, i128), Error> {
    if amount_in <= 0 {
        Err(Error::ErrNegativeOrZero)
    } else if min_amount_out < 0 {
        Err(Error::ErrNegative)
    } else if in_token != pre.config.token_x && in_token != pre.config.token_y {
        Err(Error::ErrUnknownToken)
    } else {
        let active0 = pre.config.active_bin;
        let cvid0 = vec_id_key(active0);
        let bounds = s_bounds_from(pre.bins@, 0, cvid0, cvid0);
        if !in_i128(amount_in * (BONE as int)) {
            Err(Error::ErrMulOverflow)
        } else {
            let sb = bins_views(pre.bins@);
            s_swap_assemble(
                sb, min_amount_out,
                s_swap_walk(
                    sb, pre.config, in_token, bounds.0, bounds.1, Seq::empty(), cvid0,
                    s_load_bins(sb, Seq::empty(), cvid0, active0),
                    spec_bin_slot(active0 as int), active0, amount_in * (BONE as int), 0,
                ),
            )
        }
    }
}

/// Trade against one bin at its fee-adjusted price: either the input
/// completes inside the bin, or the bin's opposite reserve is drained.
/// Returns exactly what [`s_swap_bin_step`] computes.
fn swap_bin_step(
    cfg: &Config,
    in_token: u64,
    bin: Bin,
    remaining: Wide,
    out_accum: Wide,
    upscaled_fee: Wide,
    bone: Wide,
    zero: Wide,
) -> (r: Result<(Bin, Wide, Wide, bool), Error>)
    requires
        w_val(bone) == BONE as int,
        w_val(zero) == 0,
        w_val(upscaled_fee) == (cfg.fee as int) * (FEE_SCALAR as int),
        bin.reserve_x >= 0,
        bin.reserve_y >= 0,
        w_val(remaining) >= 0,
    ensures
        match s_swap_bin_step(*cfg, in_token, bin, w_val(remaining), w_val(out_accum)) {
            Ok(t) => r matches Ok(v) && v.0 == t.0 && w_val(v.1) == t.1 && w_val(v.2) == t.2
                && v.3 == t.3,
            Err(e) => r == Err::<(Bin, Wide, Wide, bool), Error>(e),
        },
        r matches Ok(v) ==> v.0.bin_id == bin.bin_id && v.0.reserve_x >= 0 && v.0.reserve_y
            >= 0 && w_val(v.1) >= 0,
{
    let is_x_in = in_token == cfg.token_x;
    let opp_reserve = if is_x_in {
        bin.reserve_y
    } else {
        bin.reserve_x
    };
    let price = match price_from_bin_and_token(cfg, bin.bin_id, in_token) {
        Ok(p) => p,
        Err(e) => {
            return Err(e);
        }
    };
    let price_with_fee = if cfg.fee == 0 {
        price
    } else {
        let fee_cut = match fixed_mul_ceil(&price, &upscaled_fee, &bone) {
            Ok(w) => w,
            Err(e) => {
                return Err(e);
            }
        };
        match i256_checked_sub(price, fee_cut) {
            Some(w) => w,
            None => {
                return Err(Error::ErrSubUnderflow);
            }
        }
    };
    let potential = match fixed_mul_floor(&price_with_fee, &remaining, &bone) {
        Ok(w) => w,
        Err(e) => {
            return Err(e);
        }
    };
    let scaled_reserve = match opp_reserve.checked_mul(BONE) {
        Some(v) => wide_from_i128(v),
        None => {
            return Err(Error::ErrMulOverflow);
        }
    };
    if wide_le(&potential, &scaled_reserve) {
        // the trade completes inside this bin
        let new_out = match i256_checked_add(out_accum, potential) {
            Some(w) => w,
            None => {
                return Err(Error::ErrAddOverflow);
            }
        };
        let in_add = match downscale_floor(&remaining, BONE) {
            Ok(v) => v,
            Err(e) => {
                return Err(e);
            }
        };
        let left_over = match i256_checked_sub(scaled_reserve, potential) {
            Some(w) => w,
            None => {
                return Err(Error::ErrSubUnderflow);
            }
        };
        let new_out_reserve = match downscale_ceil(&left_over, BONE) {
            Ok(v) => v,
            Err(e) => {
                return Err(e);
            }
        };
        proof {
            lemma_div_pos_is_pos(w_val(remaining), BONE as int);
            lemma_ceil_div_nonneg(w_val(left_over), BONE as int);
        }
        let mut nb = bin;
        if is_x_in {
            nb.reserve_x = match nb.reserve_x.checked_add(in_add) {
                Some(v) => v,
                None => {
                    return Err(Error::ErrAddOverflow);
                }
            };
            nb.reserve_y = new_out_reserve;
        } else {
            nb.reserve_y = match nb.reserve_y.checked_add(in_add) {
                Some(v) => v,
                None => {
                    return Err(Error::ErrAddOverflow);
                }
            };
            nb.reserve_x = new_out_reserve;
        }
        Ok((nb, zero, new_out, true))
    } else {
        // the bin is exhausted and the walk continues
        let new_out = match i256_checked_add(out_accum, scaled_reserve) {
            Some(w) => w,
            None => {
                return Err(Error::ErrAddOverflow);
            }
        };
        let ratio = match fixed_div_floor(&scaled_reserve, &potential, &bone) {
            Ok(w) => w,
            Err(e) => {
                return Err(e);
            }
        };
        let consumed = match fixed_mul_ceil(&ratio, &remaining, &bone) {
            Ok(w) => w,
            Err(e) => {
                return Err(e);
            }
        };
        proof {
            lemma_consumed_le_remaining(
                opp_reserve as int * (BONE as int), w_val(potential), w_val(remaining),
            );
        }
        let new_rem = match i256_checked_sub(remaining, consumed) {
            Some(w) => w,
            None => {
                return Err(Error::ErrSubUnderflow);
            }
        };
        let in_add = match downscale_ceil(&consumed, BONE) {
            Ok(v) => v,
            Err(e) => {
                return Err(e);
            }
        };
        proof { lemma_ceil_div_nonneg(w_val(consumed), BONE as int); }
        let mut nb = bin;
        if is_x_in {
            nb.reserve_x = match nb.reserve_x.checked_add(in_add) {
                Some(v) => v,
                None => {
                    return Err(Error::ErrAddOverflow);
                }
            };
            nb.reserve_y = 0;
        } else {
            nb.reserve_y = match nb.reserve_y.checked_add(in_add) {
                Some(v) => v,
                None => {
                    return Err(Error::ErrAddOverflow);
                }
            };
            nb.reserve_x = 0;
        }
        Ok((nb, new_rem, new_out, false))
    }
}

/// The pool: its configuration and every persisted window and position.
/// All operations are transactional: an error leaves the pool untouched.
pub struct Contract {
    pub config: Config,
    pub bins: Vec<(i32, Vec<Vec<i128>>)>,
    pub shares: Vec<(i32, Vec<i128>)>,
    pub positions: Vec<(PositionKey, Position)>,
}

impl Contract {
    /// Every stored window and position of the pool is well-formed: full
    /// windows, nonnegative reserves and shares, strictly ascending
    /// positions.
    pub open spec fn wf(self) -> bool {
        bins_store_wf(self.bins@) && shares_store_wf(self.shares@) && positions_store_wf(
            self.positions@,
        )
    }

    /// Law: for every bin, the shares all users hold there together are
    /// exactly the bin's recorded total. Established at creation and kept
    /// by every operation.
    pub open spec fn conserves(self) -> bool {
        positions_keys_unique(self.positions@) && forall|b: i32|
            sum_user_shares(self.positions@, b) == eff_shares_total(
                self.shares@, Seq::empty(), b,
            )
    }

    /// A fresh pool holding only its configuration.
    pub fn new(conf: Config) -> (r: Contract)
        ensures
            r.wf(),
            r.conserves(),
            r.config == conf,
            r.bins@.len() == 0,
            r.shares@.len() == 0,
            r.positions@.len() == 0,
    {
        let r = Contract {
            config: conf,
            bins: Vec::new(),
            shares: Vec::new(),
            positions: Vec::new(),
        };
        proof {
            assert forall|b: i32| sum_user_shares(r.positions@, b) == eff_shares_total(
                r.shares@, Seq::empty(), b,
            ) by {
                assert(r.positions@ =~= Seq::<(PositionKey, Position)>::empty());
                assert(r.shares@ =~= Seq::<(i32, Vec<i128>)>::empty());
            }
        }
        r
    }

    /// The pool parameters.
    pub fn get_config(&self) -> (r: Config)
        ensures
            r == self.config,
    {
        self.config
    }

    /// The decoded bin window of `vec_id`, defaulted when never stored.
    /// Every returned bin is nonnegative, carries its derived id, and away
    /// from the active bin holds reserves of one token only.
    pub fn get_bin_vec(&self, vec_id: i32) -> (r: Vec<Bin>)
        requires
            self.wf(),
            vec_id_in_range(vec_id as int),
        ensures
            bin_window_ok(r@, vec_id as int),
            forall|i: int| 0 <= i < r@.len() ==> ((#[trigger] r@[i]).bin_id
                > self.config.active_bin ==> r@[i].reserve_x == 0) && (r@[i].bin_id
                < self.config.active_bin ==> r@[i].reserve_y == 0),
            match find_assoc(self.bins@, vec_id) {
                Some(w) => forall|i: int| 0 <= i < BIN_VEC_SIZE as int ==> #[trigger] r@[i]
                    == spec_decoded_bin(
                    w@[i]@, ((vec_id as int) * (BIN_VEC_SIZE as int) + i) as i32,
                    self.config.active_bin,
                ),
                None => forall|i: int| 0 <= i < BIN_VEC_SIZE as int ==> #[trigger] r@[i] == (Bin {
                    bin_id: ((vec_id as int) * (BIN_VEC_SIZE as int) + i) as i32,
                    reserve_x: 0,
                    reserve_y: 0,
                }),
            },
    {
        let overlay: Vec<(i32, Vec<Vec<i128>>)> = Vec::new();
        load_bin_window(&self.bins, &overlay, vec_id, self.config.active_bin)
    }

    /// The decoded share window of `vec_id`, defaulted when never stored.
    pub fn get_shares_vec(&self, vec_id: i32) -> (r: Vec<BinShares>)
        requires
            self.wf(),
            vec_id_in_range(vec_id as int),
        ensures
            shares_window_ok(r@, vec_id as int),
            match find_assoc(self.shares@, vec_id) {
                Some(w) => forall|i: int| 0 <= i < BIN_VEC_SIZE as int ==> #[trigger] r@[i]
                    == (BinShares {
                    bin_id: ((vec_id as int) * (BIN_VEC_SIZE as int) + i) as i32,
                    shares: w@[i],
                }),
                None => forall|i: int| 0 <= i < BIN_VEC_SIZE as int ==> #[trigger] r@[i]
                    == (BinShares {
                    bin_id: ((vec_id as int) * (BIN_VEC_SIZE as int) + i) as i32,
                    shares: 0,
                }),
            },
    {
        let overlay: Vec<(i32, Vec<i128>)> = Vec::new();
        load_shares_window(&self.shares, &overlay, vec_id)
    }

    /// The stored position of `(from, position_id)`, if any.
    pub fn get_position(&self, from: u64, position_id: i32) -> (r: Option<Position>)
        requires
            self.wf(),
        ensures
            match find_position(self.positions@, PositionKey { owner: from, position_id }) {
                Some(p) => r matches Some(q) && q.bin_shares@ == p.bin_shares@,
                None => r is None,
            },
    {
        let key = PositionKey { owner: from, position_id };
        match position_get(&self.positions, key) {
            Some(p) => Some(copy_position(p)),
            None => None,
        }
    }

    /// Create or modify a position by a batch of deposits and removals.
    ///
    /// Returns the pair of token deltas: positive amounts flow from the
    /// user to the pool, negative ones from the pool to the user. A batch
    /// must be nonempty, every amount positive, and no removal may exceed
    /// the caller's shares; any failure reverts the whole batch. The
    /// returned deltas and every stored window and position afterward are
    /// exactly what [`s_modify_liquidity`] computes from the old pool.
    #[verifier::rlimit(100)]
    pub fn modify_liquidity(
        &mut self,
        from: u64,
        position_id: i32,
        args: &Vec<DepositArgs>,
        offset_from_active: bool,
    ) -> (r: Result<(i128, i128), Error>)
        requires
            old(self).wf(),
        ensures
            final(self).wf(),
            final(self).config == old(self).config,
            r is Err ==> *final(self) == *old(self),
            r == Err::<(i128, i128), Error>(Error::ErrEmptyBatch) <==> args@.len() == 0,
            r == Err::<(i128, i128), Error>(Error::ErrNegativeOrZero) ==> exists|i: int|
                0 <= i < args@.len() && (#[trigger] args@[i]).amount <= 0,
            r is Ok ==> args@.len() > 0 && forall|i: int|
                0 <= i < args@.len() ==> (#[trigger] args@[i]).amount > 0,
            // only the caller's own position can change
            r is Ok ==> forall|k: PositionKey| k != (PositionKey { owner: from, position_id })
                ==> #[trigger] find_position(final(self).positions@, k) == find_position(
                old(self).positions@, k,
            ),
            // the outcome is exactly what the spec-level batch computes
            (r matches Err(e) ==> s_modify_liquidity(
                *old(self), from, position_id, args@, offset_from_active,
            ) == Err::<(Seq<(i32, Seq<Seq<i128>>)>, Seq<(i32, Seq<i128>)>,
            Seq<(PositionKey, Seq<BinShares>)>, i128, i128), Error>(e)),
            (r matches Ok(d) ==> s_modify_liquidity(
                *old(self), from, position_id, args@, offset_from_active,
            ) matches Ok(out) && d.0 == out.3 && d.1 == out.4 && bins_views(
                final(self).bins@,
            ) == out.0 && shares_views(final(self).shares@) == out.1 && position_views(
                final(self).positions@,
            ) == out.2),
            r is Ok ==> (find_position(
                final(self).positions@, PositionKey { owner: from, position_id },
            ) matches Some(p) && position_wf(p)),
            old(self).conserves() ==> final(self).conserves(),
    {
        if args.len() == 0 {
            return Err(Error::ErrEmptyBatch);
        }
        let ghost cons = old(self).conserves();
        let config = self.config;
        let bin_offset: i32 = if offset_from_active {
            config.active_bin
        } else {
            0
        };
        let key = PositionKey { owner: from, position_id };
        let ghost stored_pos = find_position(self.positions@, key);
        let mut position: Position = match position_get(&self.positions, key) {
            Some(p) => {
                proof {
                    let j = choose|j: int| 0 <= j < self.positions@.len()
                        && self.positions@[j].0 == key && self.positions@[j].1 == *p;
                    assert(position_wf(self.positions@[j].1));
                }
                copy_position(p)
            }
            None => Position { bin_shares: Vec::new() },
        };
        let mut touched_bins: Vec<(i32, Vec<Vec<i128>>)> = Vec::new();
        let mut touched_shares: Vec<(i32, Vec<i128>)> = Vec::new();
        let starting_bin_id = match args[0].bin_id_or_offset.checked_add(bin_offset) {
            Some(b) => b,
            None => {
                return Err(Error::ErrAddOverflow);
            }
        };
        let mut cur_vec_id = get_vec_id_for_bin(starting_bin_id);
        proof { lemma_vec_id_range(starting_bin_id as int); }
        let mut cur_bin_vec = load_bin_window(
            &self.bins, &touched_bins, cur_vec_id, config.active_bin,
        );
        let mut cur_shares_vec = load_shares_window(&self.shares, &touched_shares, cur_vec_id);
        let ghost sb = bins_views(self.bins@);
        let ghost ss = shares_views(self.shares@);
        let ghost m_full = s_apply_actions(
            sb, ss, config.active_bin, bin_offset, args@, 0, Seq::empty(), Seq::empty(),
            cur_vec_id, cur_bin_vec@, cur_shares_vec@, position.bin_shares@, 0, 0,
        );
        let ghost m_asm = s_modify_liquidity(*old(self), from, position_id, args@,
            offset_from_active);
        proof {
            assert(position.bin_shares@ == match stored_pos {
                Some(p) => p.bin_shares@,
                None => Seq::<BinShares>::empty(),
            });
            assert(bins_views(touched_bins@) =~~= Seq::<(i32, Seq<Seq<i128>>)>::empty());
            assert(shares_views(touched_shares@) =~~= Seq::<(i32, Seq<i128>)>::empty());
            lemma_load_bins_matches(
                self.bins@, touched_bins@, cur_vec_id, config.active_bin, cur_bin_vec@,
            );
            lemma_load_shares_matches(self.shares@, touched_shares@, cur_vec_id,
                cur_shares_vec@);
            assert(m_asm == s_assemble(
                sb, ss, old(self).positions@, PositionKey { owner: from, position_id },
                m_full,
            ));
            if cons {
                assert forall|b: i32| sum_except(self.positions@, key, b) + spec_find_shares(
                    position.bin_shares@, b,
                ).shares as int == working_shares_total(
                    self.shares@, touched_shares@, cur_vec_id, cur_shares_vec@, b,
                ) by {
                    lemma_vec_id_slot_identity(b as int);
                    lemma_vec_id_range(b as int);
                    lemma_eff_window_len(self.shares@, touched_shares@, vec_id_key(b));
                    lemma_sum_split(self.positions@, key, b);
                    assert(touched_shares@ =~= Seq::<(i32, Vec<i128>)>::empty());
                    assert(sum_user_shares(self.positions@, b) == eff_shares_total(
                        self.shares@, Seq::empty(), b,
                    ));
                    let sl = spec_bin_slot(b as int);
                    if vec_id_key(b) == cur_vec_id {
                        let got = cur_shares_vec@[sl];
                        assert(got.shares as int == eff_shares_total(
                            self.shares@, touched_shares@, b,
                        ));
                    }
                }
            }
        }
        let mut x_delta: i128 = 0;
        let mut y_delta: i128 = 0;
        let mut idx: usize = 0;
        while idx < args.len()
            invariant
                0 < args@.len(),
                idx <= args@.len(),
                *self == *old(self),
                self.wf(),
                config == self.config,
                bins_store_wf(touched_bins@),
                shares_store_wf(touched_shares@),
                vec_id_in_range(cur_vec_id as int),
                bin_window_ok(cur_bin_vec@, cur_vec_id as int),
                shares_window_ok(cur_shares_vec@, cur_vec_id as int),
                position_wf(position),
                crate::storage::keys_unique(touched_shares@),
                sb == bins_views(old(self).bins@),
                ss == shares_views(old(self).shares@),
                bin_offset == (if offset_from_active { old(self).config.active_bin } else {
                    0i32
                }),
                m_full == s_apply_actions(
                    sb, ss, config.active_bin, bin_offset, args@, idx as int,
                    bins_views(touched_bins@), shares_views(touched_shares@), cur_vec_id,
                    cur_bin_vec@, cur_shares_vec@, position.bin_shares@, x_delta, y_delta,
                ),
                m_asm == s_modify_liquidity(*old(self), from, position_id, args@,
                    offset_from_active),
                m_asm == s_assemble(
                    sb, ss, old(self).positions@, PositionKey { owner: from, position_id },
                    m_full,
                ),
                cons == old(self).conserves(),
                cons ==> forall|b: i32| sum_except(self.positions@, key, b) + spec_find_shares(
                    position.bin_shares@, b,
                ).shares as int == working_shares_total(
                    self.shares@, touched_shares@, cur_vec_id, cur_shares_vec@, b,
                ),
                forall|j: int| 0 <= j < idx as int ==> (#[trigger] args@[j]).amount > 0,
            decreases args@.len() - idx as int,
        {
            let arg = args[idx];
            let bin_id = match arg.bin_id_or_offset.checked_add(bin_offset) {
                Some(b) => b,
                None => {
                    return Err(Error::ErrAddOverflow);
                }
            };
            if !is_bin_in_vec(bin_id, cur_vec_id) {
                let ghost ts0 = touched_shares@;
                let ghost tb0 = touched_bins@;
                let ghost cb0 = cur_bin_vec@;
                let ghost sv0 = cur_shares_vec@;
                let ghost vid0 = cur_vec_id;
                let raw_b = bin_vec_to_raw(&cur_bin_vec);
                proof {
                    lemma_encode_bins_wf(cur_bin_vec@, raw_b, cur_vec_id as int);
                    lemma_bins_put_wf(touched_bins@, cur_vec_id, raw_b);
                }
                assoc_put(&mut touched_bins, cur_vec_id, raw_b);
                proof {
                    assert(window_views(raw_b) =~= s_encode_bins(cb0));
                    lemma_bins_views_put(tb0, vid0, raw_b);
                }
                let raw_s = shares_vec_to_raw(&cur_shares_vec);
                proof {
                    lemma_encode_shares_wf(cur_shares_vec@, raw_s, cur_vec_id as int);
                    lemma_shares_put_wf(touched_shares@, cur_vec_id, raw_s);
                }
                assoc_put(&mut touched_shares, cur_vec_id, raw_s);
                proof {
                    assert(raw_s@ =~= s_encode_shares(sv0));
                    lemma_shares_views_put(ts0, vid0, raw_s);
                    crate::storage::lemma_assoc_put_unique(ts0, vid0, raw_s);
                    if cons {
                        // flushing the window moves its totals into the overlay
                        assert forall|b: i32| eff_shares_total(
                            self.shares@, touched_shares@, b,
                        ) == working_shares_total(self.shares@, ts0, vid0, sv0, b) by {
                            lemma_vec_id_slot_identity(b as int);
                            lemma_vec_id_range(b as int);
                            lemma_eff_window_len(self.shares@, ts0, vec_id_key(b));
                            lemma_eff_window_len(self.shares@, touched_shares@, vec_id_key(b));
                            crate::storage::lemma_assoc_put_find::<Vec<i128>>(
                                ts0, vid0, raw_s, vec_id_key(b),
                            );
                        }
                    }
                }
                cur_vec_id = get_vec_id_for_bin(bin_id);
                proof { lemma_vec_id_range(bin_id as int); }
                cur_bin_vec = load_bin_window(
                    &self.bins, &touched_bins, cur_vec_id, config.active_bin,
                );
                cur_shares_vec = load_shares_window(&self.shares, &touched_shares, cur_vec_id);
                proof {
                    lemma_load_bins_matches(
                        self.bins@, touched_bins@, cur_vec_id, config.active_bin,
                        cur_bin_vec@,
                    );
                    lemma_load_shares_matches(
                        self.shares@, touched_shares@, cur_vec_id, cur_shares_vec@,
                    );
                    if cons {
                        // the freshly checked-out window reflects the overlay
                        assert forall|b: i32| working_shares_total(
                            self.shares@, touched_shares@, cur_vec_id, cur_shares_vec@, b,
                        ) == eff_shares_total(self.shares@, touched_shares@, b) by {
                            lemma_vec_id_slot_identity(b as int);
                            lemma_vec_id_range(b as int);
                            lemma_eff_window_len(self.shares@, touched_shares@, vec_id_key(b));
                            let sl = spec_bin_slot(b as int);
                            if vec_id_key(b) == cur_vec_id {
                                let got = cur_shares_vec@[sl];
                                assert(got.shares as int == eff_shares_total(
                                    self.shares@, touched_shares@, b,
                                ));
                            }
                        }
                    }
                }
            }
            proof {
                lemma_vec_id_slot_identity(bin_id as int);
                assert(shares_nonneg(position.bin_shares@));
                lemma_find_shares_props(position.bin_shares@, bin_id);
            }
            let mut bin = get_bin_from_vec(&cur_bin_vec, bin_id);
            let mut bin_shares = get_bin_from_vec(&cur_shares_vec, bin_id);
            let mut user_shares = get_shares_from_position(&position, bin_id);
            let ghost p0 = position.bin_shares@;
            let ghost sv1 = cur_shares_vec@;
            if arg.amount <= 0 {
                return Err(Error::ErrNegativeOrZero);
            }
            if !arg.is_remove {
                let t = match apply_deposit(
                    config.active_bin, bin, bin_shares, user_shares, arg.amount, x_delta,
                    y_delta,
                ) {
                    Ok(t) => t,
                    Err(e) => {
                        return Err(e);
                    }
                };
                bin = t.0;
                bin_shares = t.1;
                user_shares = t.2;
                x_delta = t.3;
                y_delta = t.4;
                if user_shares.shares != 0 {
                    // a deposit that minted nothing leaves the position
                    // untouched: no empty record is ever stored
                    proof { lemma_position_after_upsert(position.bin_shares@, user_shares); }
                    store_shares_in_position(&mut position, user_shares);
                }
                store_bin_in_vec(&mut cur_bin_vec, bin_id, bin);
                store_bin_in_vec(&mut cur_shares_vec, bin_id, bin_shares);
                proof {
                    if cons {
                        // the mint lands equally in the user's record and
                        // the bin's total
                        assert forall|b: i32| sum_except(self.positions@, key, b)
                            + spec_find_shares(position.bin_shares@, b).shares as int
                            == working_shares_total(
                            self.shares@, touched_shares@, cur_vec_id, cur_shares_vec@, b,
                        ) by {
                            lemma_vec_id_slot_identity(b as int);
                            lemma_vec_id_range(b as int);
                            lemma_vec_id_slot_identity(bin_id as int);
                            lemma_vec_id_range(bin_id as int);
                            lemma_eff_window_len(self.shares@, touched_shares@, vec_id_key(b));
                            assert(sum_except(self.positions@, key, b) + spec_find_shares(
                                p0, b,
                            ).shares as int == working_shares_total(
                                self.shares@, touched_shares@, cur_vec_id, sv1, b,
                            ));
                            if user_shares.shares != 0 {
                                lemma_upsert_find(p0, user_shares, b);
                            }
                        }
                    }
                }
            } else {
                let t = match apply_withdraw(
                    bin, bin_shares, user_shares, arg.amount, x_delta, y_delta,
                ) {
                    Ok(t) => t,
                    Err(e) => {
                        return Err(e);
                    }
                };
                bin = t.0;
                bin_shares = t.1;
                user_shares = t.2;
                x_delta = t.3;
                y_delta = t.4;
                if user_shares.shares == 0 {
                    proof {
                        lemma_position_after_delete(position.bin_shares@, user_shares.bin_id);
                    }
                    delete_shares_in_position(&mut position, user_shares);
                } else {
                    proof { lemma_position_after_upsert(position.bin_shares@, user_shares); }
                    store_shares_in_position(&mut position, user_shares);
                }
                store_bin_in_vec(&mut cur_bin_vec, bin_id, bin);
                store_bin_in_vec(&mut cur_shares_vec, bin_id, bin_shares);
                proof {
                    if cons {
                        // the removed shares leave the user's record and
                        // the bin's total together
                        assert forall|b: i32| sum_except(self.positions@, key, b)
                            + spec_find_shares(position.bin_shares@, b).shares as int
                            == working_shares_total(
                            self.shares@, touched_shares@, cur_vec_id, cur_shares_vec@, b,
                        ) by {
                            lemma_vec_id_slot_identity(b as int);
                            lemma_vec_id_range(b as int);
                            lemma_vec_id_slot_identity(bin_id as int);
                            lemma_vec_id_range(bin_id as int);
                            lemma_eff_window_len(self.shares@, touched_shares@, vec_id_key(b));
                            assert(sum_except(self.positions@, key, b) + spec_find_shares(
                                p0, b,
                            ).shares as int == working_shares_total(
                                self.shares@, touched_shares@, cur_vec_id, sv1, b,
                            ));
                            if user_shares.shares == 0 {
                                lemma_delete_find(p0, bin_id, b);
                            } else {
                                lemma_upsert_find(p0, user_shares, b);
                            }
                        }
                    }
                }
            }
            idx = idx + 1;
        }
        let ghost ts1 = touched_shares@;
        let ghost tb2 = touched_bins@;
        let ghost cb2 = cur_bin_vec@;
        let ghost sv2 = cur_shares_vec@;
        let ghost vid1 = cur_vec_id;
        let raw_b = bin_vec_to_raw(&cur_bin_vec);
        proof {
            lemma_encode_bins_wf(cur_bin_vec@, raw_b, cur_vec_id as int);
            lemma_bins_put_wf(touched_bins@, cur_vec_id, raw_b);
        }
        assoc_put(&mut touched_bins, cur_vec_id, raw_b);
        proof {
            assert(window_views(raw_b) =~= s_encode_bins(cb2));
            lemma_bins_views_put(tb2, vid1, raw_b);
        }
        let raw_s = shares_vec_to_raw(&cur_shares_vec);
        proof {
            lemma_encode_shares_wf(cur_shares_vec@, raw_s, cur_vec_id as int);
            lemma_shares_put_wf(touched_shares@, cur_vec_id, raw_s);
        }
        assoc_put(&mut touched_shares, cur_vec_id, raw_s);
        proof {
            assert(raw_s@ =~= s_encode_shares(sv2));
            lemma_shares_views_put(ts1, vid1, raw_s);
            crate::storage::lemma_assoc_put_unique(ts1, vid1, raw_s);
            if cons {
                assert forall|b: i32| sum_except(self.positions@, key, b) + spec_find_shares(
                    position.bin_shares@, b,
                ).shares as int == eff_shares_total(self.shares@, touched_shares@, b) by {
                    lemma_vec_id_slot_identity(b as int);
                    lemma_vec_id_range(b as int);
                    lemma_eff_window_len(self.shares@, ts1, vec_id_key(b));
                    lemma_eff_window_len(self.shares@, touched_shares@, vec_id_key(b));
                    assert(sum_except(self.positions@, key, b) + spec_find_shares(
                        position.bin_shares@, b,
                    ).shares as int == working_shares_total(
                        self.shares@, ts1, vid1, sv2, b,
                    ));
                    crate::storage::lemma_assoc_put_find::<Vec<i128>>(
                        ts1, vid1, raw_s, vec_id_key(b),
                    );
                }
            }
        }
        let ghost t0 = touched_shares@;
        let ghost tbf = bins_views(touched_bins@);
        let ghost tsf = shares_views(touched_shares@);
        // commit: the batch can no longer fail
        while touched_bins.len() > 0
            invariant
                bins_store_wf(touched_bins@),
                bins_store_wf(self.bins@),
                shares_store_wf(self.shares@),
                positions_store_wf(self.positions@),
                self.shares@ == old(self).shares@,
                self.positions@ == old(self).positions@,
                self.config == old(self).config,
                s_commit(bins_views(self.bins@), bins_views(touched_bins@)) == s_commit(
                    bins_views(old(self).bins@), tbf,
                ),
            decreases touched_bins@.len(),
        {
            let ghost ovb = touched_bins@;
            let ghost sbp = self.bins@;
            match touched_bins.pop() {
                Some(entry) => {
                    proof { lemma_bins_put_wf(self.bins@, entry.0, entry.1); }
                    assoc_put(&mut self.bins, entry.0, entry.1);
                    proof {
                        assert(bins_views(ovb).last() == (entry.0, window_views(entry.1)));
                        assert(bins_views(touched_bins@) =~~= bins_views(ovb).drop_last());
                        lemma_bins_views_put(sbp, entry.0, entry.1);
                        assert(bins_views(ovb).len() > 0);
                    }
                }
                None => {
                    proof { assert(false); }
                }
            }
        }
        while touched_shares.len() > 0
            invariant
                shares_store_wf(touched_shares@),
                bins_store_wf(self.bins@),
                shares_store_wf(self.shares@),
                positions_store_wf(self.positions@),
                self.positions@ == old(self).positions@,
                self.config == old(self).config,
                crate::storage::keys_unique(touched_shares@),
                touched_bins@.len() == 0,
                s_commit(bins_views(self.bins@), bins_views(touched_bins@)) == s_commit(
                    bins_views(old(self).bins@), tbf,
                ),
                s_commit(shares_views(self.shares@), shares_views(touched_shares@))
                    == s_commit(shares_views(old(self).shares@), tsf),
                cons ==> forall|b: i32| eff_shares_total(self.shares@, touched_shares@, b)
                    == eff_shares_total(old(self).shares@, t0, b),
            decreases touched_shares@.len(),
        {
            let ghost ov0 = touched_shares@;
            let ghost s0 = self.shares@;
            match touched_shares.pop() {
                Some(entry) => {
                    proof { lemma_shares_put_wf(self.shares@, entry.0, entry.1); }
                    assoc_put(&mut self.shares, entry.0, entry.1);
                    proof {
                        assert(shares_views(ov0).last() == (entry.0, entry.1@));
                        assert(shares_views(touched_shares@) =~~= shares_views(
                            ov0,
                        ).drop_last());
                        lemma_shares_views_put(s0, entry.0, entry.1);
                        assert(shares_views(ov0).len() > 0);
                        assert(ov0[ov0.len() - 1] == entry);
                        assert forall|i: int, j: int| 0 <= i < j < touched_shares@.len() implies
                            (#[trigger] touched_shares@[i]).0 != (
                        #[trigger] touched_shares@[j]).0 by {
                            assert(touched_shares@[i] == ov0[i] && touched_shares@[j] == ov0[j]);
                        }
                        if cons {
                            // moving the popped window into the store keeps
                            // every bin's total in force
                            assert forall|b: i32| eff_shares_total(
                                self.shares@, touched_shares@, b,
                            ) == eff_shares_total(s0, ov0, b) by {
                                let vid = vec_id_key(b);
                                crate::storage::lemma_assoc_put_find::<Vec<i128>>(
                                    s0, entry.0, entry.1, vid,
                                );
                                if vid == entry.0 {
                                    assert forall|j: int| 0 <= j < touched_shares@.len() implies
                                        (#[trigger] touched_shares@[j]).0 != entry.0 by {
                                        assert(touched_shares@[j] == ov0[j]);
                                    }
                                    crate::storage::lemma_assoc_miss(touched_shares@, entry.0);
                                    crate::storage::lemma_assoc_find_unique(
                                        ov0, ov0.len() - 1,
                                    );
                                } else {
                                    crate::storage::lemma_assoc_drop_last::<Vec<i128>>(
                                        ov0, vid,
                                    );
                                }
                            }
                        }
                    }
                }
                None => {
                    proof { assert(false); }
                }
            }
        }
        proof {
            lemma_positions_put_wf(self.positions@, key, position);
            assert forall|k: PositionKey| k != key implies #[trigger] find_position(
                spec_position_put(self.positions@, key, position), k,
            ) == find_position(self.positions@, k) by {
                crate::storage::lemma_position_put_find(self.positions@, key, position, k);
            }
            crate::storage::lemma_position_put_find(self.positions@, key, position, key);
            if cons {
                lemma_position_put_unique(self.positions@, key, position);
            }
        }
        let ghost ps0 = self.positions@;
        position_put(&mut self.positions, key, position);
        proof {
            lemma_position_views_put(ps0, key, position);
            assert(bins_views(touched_bins@) =~~= Seq::<(i32, Seq<Seq<i128>>)>::empty());
            assert(shares_views(touched_shares@) =~~= Seq::<(i32, Seq<i128>)>::empty());
            if cons {
                // every user's records and every bin total are back in the
                // store, unchanged in sum
                assert forall|b: i32| sum_user_shares(self.positions@, b) == eff_shares_total(
                    self.shares@, Seq::empty(), b,
                ) by {
                    lemma_sum_split(self.positions@, key, b);
                    lemma_sum_except_put(ps0, key, position, b);
                    assert(touched_shares@ =~= Seq::<(i32, Vec<i128>)>::empty());
                    assert(eff_shares_total(self.shares@, touched_shares@, b)
                        == eff_shares_total(old(self).shares@, t0, b));
                    assert(sum_except(ps0, key, b) + spec_find_shares(
                        position.bin_shares@, b,
                    ).shares as int == eff_shares_total(old(self).shares@, t0, b));
                }
            }
        }
        Ok((x_delta, y_delta))
    }

    /// Swap an exact input amount through consecutive bins.
    ///
    /// The walk starts at the active bin and crosses bins toward higher ids
    /// for X in, lower ids for Y in, consuming each bin's opposite reserve
    /// at its fee-adjusted price until the input is spent. On success the
    /// active bin has advanced to the last bin that supplied output and the
    /// output is at least `min_amount_out`; any failure, including running
    /// past all stored liquidity, reverts the swap. The output, the new
    /// active bin and every stored bin window afterward are exactly what
    /// [`s_swap_exact_amount_in`] computes from the old pool.
    #[verifier::rlimit(100)]
    pub fn swap_exact_amount_in(
        &mut self,
        from: u64,
        amount_in: i128,
        min_amount_out: i128,
        in_token: u64,
    ) -> (r: Result<i128, Error>)
        requires
            old(self).wf(),
        ensures
            final(self).wf(),
            r is Err ==> *final(self) == *old(self),
            r == Err::<i128, Error>(Error::ErrNegativeOrZero) <==> amount_in <= 0,
            r == Err::<i128, Error>(Error::ErrNegative) <==> amount_in > 0 && min_amount_out
                < 0,
            r == Err::<i128, Error>(Error::ErrUnknownToken) <==> amount_in > 0
                && min_amount_out >= 0 && in_token != old(self).config.token_x && in_token
                != old(self).config.token_y,
            r matches Ok(out) ==> out >= min_amount_out,
            // a swap only moves bin reserves and the active bin: the share
            // windows and every position stay exactly as they were
            final(self).shares@ == old(self).shares@,
            final(self).positions@ == old(self).positions@,
            final(self).config.token_x == old(self).config.token_x,
            final(self).config.token_y == old(self).config.token_y,
            final(self).config.bin_step == old(self).config.bin_step,
            final(self).config.fee == old(self).config.fee,
            // the active bin only advances in the trade's direction
            r is Ok && in_token == old(self).config.token_x ==> final(self).config.active_bin
                >= old(self).config.active_bin,
            r is Ok && in_token != old(self).config.token_x ==> final(self).config.active_bin
                <= old(self).config.active_bin,
            old(self).conserves() ==> final(self).conserves(),
            // the outcome is exactly what the spec-level traversal computes
            (r matches Err(e) ==> s_swap_exact_amount_in(
                *old(self), amount_in, min_amount_out, in_token,
            ) == Err::<(Seq<(i32, Seq<Seq<i128>>)>, i32, i128), Error>(e)),
            (r matches Ok(o) ==> s_swap_exact_amount_in(
                *old(self), amount_in, min_amount_out, in_token,
            ) matches Ok(out) && o == out.2 && bins_views(final(self).bins@) == out.0
                && final(self).config.active_bin == out.1),
    {
        let config = self.config;
        if amount_in <= 0 {
            return Err(Error::ErrNegativeOrZero);
        }
        if min_amount_out < 0 {
            return Err(Error::ErrNegative);
        }
        if in_token != config.token_x && in_token != config.token_y {
            return Err(Error::ErrUnknownToken);
        }
        let is_x_in = in_token == config.token_x;
        let bone = wide_from_i128(BONE);
        let zero = wide_zero();
        let upscaled_fee = crate::math::upscale(config.fee as i128, FEE_SCALAR);
        let mut cur_bin_id = config.active_bin;
        let mut cur_vec_id = get_vec_id_for_bin(cur_bin_id);
        proof { lemma_vec_id_range(cur_bin_id as int); }
        let bounds = vec_id_bounds(&self.bins, cur_vec_id);
        let lo = bounds.0;
        let hi = bounds.1;
        proof {
            assert(vec_id_in_range(lo as int) && vec_id_in_range(hi as int)) by {
                if lo != cur_vec_id {
                    let j = choose|j: int| 0 <= j < self.bins@.len() && self.bins@[j].0 == lo;
                    assert(vec_id_in_range(self.bins@[j].0 as int));
                }
                if hi != cur_vec_id {
                    let j = choose|j: int| 0 <= j < self.bins@.len() && self.bins@[j].0 == hi;
                    assert(vec_id_in_range(self.bins@[j].0 as int));
                }
            }
        }
        let mut touched_bins: Vec<(i32, Vec<Vec<i128>>)> = Vec::new();
        let mut cur_bin_vec = load_bin_window(
            &self.bins, &touched_bins, cur_vec_id, config.active_bin,
        );
        let mut remaining = match amount_in.checked_mul(BONE) {
            Some(v) => wide_from_i128(v),
            None => {
                return Err(Error::ErrMulOverflow);
            }
        };
        let mut out_accum = wide_zero();
        let ghost sb = bins_views(self.bins@);
        let ghost m_walk = s_swap_walk(
            sb, config, in_token, lo, hi, Seq::empty(), cur_vec_id, cur_bin_vec@,
            spec_bin_slot(cur_bin_id as int), cur_bin_id, w_val(remaining), 0,
        );
        let ghost m_asm = s_swap_exact_amount_in(*old(self), amount_in, min_amount_out,
            in_token);
        proof {
            assert(bins_views(touched_bins@) =~~= Seq::<(i32, Seq<Seq<i128>>)>::empty());
            lemma_load_bins_matches(
                self.bins@, touched_bins@, cur_vec_id, config.active_bin, cur_bin_vec@,
            );
            assert(m_asm == s_swap_assemble(sb, min_amount_out, m_walk));
        }
        loop
            invariant_except_break
                m_walk == s_swap_walk(
                    sb, config, in_token, lo, hi, bins_views(touched_bins@), cur_vec_id,
                    cur_bin_vec@, spec_bin_slot(cur_bin_id as int), cur_bin_id,
                    w_val(remaining), w_val(out_accum),
                ),
            invariant
                *self == *old(self),
                self.wf(),
                config == self.config,
                amount_in > 0,
                min_amount_out >= 0,
                in_token == config.token_x || in_token == config.token_y,
                w_val(bone) == BONE as int,
                w_val(zero) == 0,
                bins_store_wf(touched_bins@),
                lo <= cur_vec_id <= hi,
                vec_id_in_range(lo as int),
                vec_id_in_range(hi as int),
                vec_id_in_range(cur_vec_id as int),
                bin_window_ok(cur_bin_vec@, cur_vec_id as int),
                w_val(remaining) >= 0,
                w_val(upscaled_fee) == (config.fee as int) * (FEE_SCALAR as int),
                is_x_in == (in_token == config.token_x),
                sb == bins_views(old(self).bins@),
                m_asm == s_swap_exact_amount_in(*old(self), amount_in, min_amount_out,
                    in_token),
                m_asm == s_swap_assemble(sb, min_amount_out, m_walk),
                is_x_in ==> old(self).config.active_bin <= cur_bin_id
                    && spec_vec_id_for_bin(cur_bin_id as int) <= cur_vec_id as int,
                !is_x_in ==> cur_bin_id <= old(self).config.active_bin
                    && spec_vec_id_for_bin(cur_bin_id as int) >= cur_vec_id as int,
            ensures
                *self == *old(self),
                self.wf(),
                config == self.config,
                bins_store_wf(touched_bins@),
                w_val(remaining) == 0,
                m_walk == Ok::<(Seq<(i32, Seq<Seq<i128>>)>, i32, i32, int), Error>(
                    (bins_views(touched_bins@), cur_vec_id, cur_bin_id, w_val(out_accum)),
                ),
                m_asm == s_swap_exact_amount_in(*old(self), amount_in, min_amount_out,
                    in_token),
                m_asm == s_swap_assemble(sb, min_amount_out, m_walk),
                sb == bins_views(old(self).bins@),
                is_x_in ==> old(self).config.active_bin <= cur_bin_id,
                !is_x_in ==> cur_bin_id <= old(self).config.active_bin,
            decreases (if is_x_in { hi - cur_vec_id } else { cur_vec_id - lo }) as int,
        {
            proof { lemma_vec_id_slot_identity(cur_bin_id as int); }
            let mut i: i32 = get_bin_position_in_vec(cur_bin_id) as i32;
            let step: i32 = if is_x_in {
                1
            } else {
                -1
            };
            while 0 <= i && i < BIN_VEC_SIZE
                invariant
                    *self == *old(self),
                    self.wf(),
                    config == self.config,
                    amount_in > 0,
                    min_amount_out >= 0,
                    in_token == config.token_x || in_token == config.token_y,
                    w_val(bone) == BONE as int,
                    w_val(zero) == 0,
                    step == (if is_x_in { 1int } else { -1int }),
                    -1 <= i <= BIN_VEC_SIZE as int,
                    bins_store_wf(touched_bins@),
                    vec_id_in_range(cur_vec_id as int),
                    bin_window_ok(cur_bin_vec@, cur_vec_id as int),
                    w_val(remaining) >= 0,
                    w_val(upscaled_fee) == (config.fee as int) * (FEE_SCALAR as int),
                    is_x_in == (in_token == config.token_x),
                    lo <= cur_vec_id <= hi,
                    m_walk == s_swap_walk(
                        sb, config, in_token, lo, hi, bins_views(touched_bins@), cur_vec_id,
                        cur_bin_vec@, i as int, cur_bin_id, w_val(remaining),
                        w_val(out_accum),
                    ),
                    m_asm == s_swap_exact_amount_in(*old(self), amount_in, min_amount_out,
                        in_token),
                    m_asm == s_swap_assemble(sb, min_amount_out, m_walk),
                    is_x_in ==> old(self).config.active_bin <= cur_bin_id
                        && spec_vec_id_for_bin(cur_bin_id as int) <= cur_vec_id as int
                        && (cur_vec_id as int) * (BIN_VEC_SIZE as int) + i as int
                        >= cur_bin_id as int,
                    !is_x_in ==> cur_bin_id <= old(self).config.active_bin
                        && spec_vec_id_for_bin(cur_bin_id as int) >= cur_vec_id as int
                        && (cur_vec_id as int) * (BIN_VEC_SIZE as int) + i as int
                        <= cur_bin_id as int,
                decreases (if is_x_in { BIN_VEC_SIZE as int - i as int } else { i as int + 1 }),
            {
                let bin = cur_bin_vec[i as usize];
                let opp_reserve = if is_x_in {
                    bin.reserve_y
                } else {
                    bin.reserve_x
                };
                if opp_reserve == 0 {
                    i = i + step;
                } else {
                    cur_bin_id = bin.bin_id;
                    proof {
                        vstd::arithmetic::div_mod::lemma_fundamental_div_mod_converse(
                            cur_bin_id as int, BIN_VEC_SIZE as int, cur_vec_id as int, i as int,
                        );
                    }
                    let t = match swap_bin_step(
                        &config, in_token, bin, remaining, out_accum, upscaled_fee, bone, zero,
                    ) {
                        Ok(t) => t,
                        Err(e) => {
                            return Err(e);
                        }
                    };
                    cur_bin_vec.set(i as usize, t.0);
                    remaining = t.1;
                    out_accum = t.2;
                    if t.3 {
                        // the trade completed: leave the slot range so the
                        // window is flushed and the walk stops
                        i = if is_x_in {
                            BIN_VEC_SIZE
                        } else {
                            -1
                        };
                    } else {
                        i = i + step;
                    }
                }
            }
            let ghost tbs0 = touched_bins@;
            let ghost cbs0 = cur_bin_vec@;
            let raw_b = bin_vec_to_raw(&cur_bin_vec);
            proof {
                lemma_encode_bins_wf(cur_bin_vec@, raw_b, cur_vec_id as int);
                lemma_bins_put_wf(touched_bins@, cur_vec_id, raw_b);
            }
            assoc_put(&mut touched_bins, cur_vec_id, raw_b);
            proof {
                assert(window_views(raw_b) =~= s_encode_bins(cbs0));
                lemma_bins_views_put(tbs0, cur_vec_id, raw_b);
            }
            if wide_is_zero(&remaining) {
                break;
            }
            if is_x_in {
                if cur_vec_id >= hi {
                    return Err(Error::ErrInsufficientLiquidity);
                }
                cur_vec_id = cur_vec_id + 1;
            } else {
                if cur_vec_id <= lo {
                    return Err(Error::ErrInsufficientLiquidity);
                }
                cur_vec_id = cur_vec_id - 1;
            }
            cur_bin_id = match cur_bin_id.checked_add(if is_x_in {
                1
            } else {
                -1
            }) {
                Some(v) => v,
                None => {
                    return Err(Error::ErrAddOverflow);
                }
            };
            proof {
                if is_x_in {
                    vstd::arithmetic::div_mod::lemma_div_plus_one(cur_bin_id as int - 1, 32);
                    lemma_div_is_ordered(cur_bin_id as int, cur_bin_id as int + 31, 32);
                } else {
                    vstd::arithmetic::div_mod::lemma_div_minus_one(cur_bin_id as int + 1, 32);
                    lemma_div_is_ordered(cur_bin_id as int - 31, cur_bin_id as int, 32);
                }
            }
            cur_bin_vec = load_bin_window(
                &self.bins, &touched_bins, cur_vec_id, config.active_bin,
            );
            proof {
                lemma_load_bins_matches(
                    self.bins@, touched_bins@, cur_vec_id, config.active_bin, cur_bin_vec@,
                );
            }
        }
        let downscaled_out = match downscale_floor(&out_accum, BONE) {
            Ok(v) => v,
            Err(e) => {
                return Err(e);
            }
        };
        if downscaled_out < min_amount_out {
            return Err(Error::ErrInsufficientOutput);
        }
        // commit: the swap can no longer fail
        let ghost tbf = bins_views(touched_bins@);
        while touched_bins.len() > 0
            invariant
                bins_store_wf(touched_bins@),
                bins_store_wf(self.bins@),
                shares_store_wf(self.shares@),
                positions_store_wf(self.positions@),
                self.shares@ == old(self).shares@,
                self.positions@ == old(self).positions@,
                self.config == old(self).config,
                s_commit(bins_views(self.bins@), bins_views(touched_bins@)) == s_commit(
                    bins_views(old(self).bins@), tbf,
                ),
            decreases touched_bins@.len(),
        {
            let ghost ovb = touched_bins@;
            let ghost sbp = self.bins@;
            match touched_bins.pop() {
                Some(entry) => {
                    proof { lemma_bins_put_wf(self.bins@, entry.0, entry.1); }
                    assoc_put(&mut self.bins, entry.0, entry.1);
                    proof {
                        assert(bins_views(ovb).last() == (entry.0, window_views(entry.1)));
                        assert(bins_views(touched_bins@) =~~= bins_views(ovb).drop_last());
                        lemma_bins_views_put(sbp, entry.0, entry.1);
                        assert(bins_views(ovb).len() > 0);
                    }
                }
                None => {
                    proof { assert(false); }
                }
            }
        }
        proof {
            assert(bins_views(touched_bins@) =~~= Seq::<(i32, Seq<Seq<i128>>)>::empty());
        }
        self.config.active_bin = cur_bin_id;
        Ok(downscaled_out)
    }
}

/// The smallest and largest window ids among the stored ones and `init`.
fn vec_id_bounds(v: &Vec<(i32, Vec<Vec<i128>>)>, init: i32) -> (r: (i32, i32))
    ensures
        r.0 <= init <= r.1,
        forall|j: int| 0 <= j < v@.len() ==> r.0 <= (#[trigger] v@[j]).0 <= r.1,
        r.0 == init || exists|j: int| 0 <= j < v@.len() && (#[trigger] v@[j]).0 == r.0,
        r.1 == init || exists|j: int| 0 <= j < v@.len() && (#[trigger] v@[j]).0 == r.1,
        r == s_bounds_from(v@, 0, init, init),
{
    let mut lo = init;
    let mut hi = init;
    let mut i: usize = 0;
    while i < v.len()
        invariant
            0 <= i <= v@.len(),
            lo <= init <= hi,
            forall|j: int| 0 <= j < i as int ==> lo <= (#[trigger] v@[j]).0 <= hi,
            lo == init || exists|j: int| 0 <= j < v@.len() && (#[trigger] v@[j]).0 == lo,
            hi == init || exists|j: int| 0 <= j < v@.len() && (#[trigger] v@[j]).0 == hi,
            s_bounds_from(v@, 0, init, init) == s_bounds_from(v@, i as int, lo, hi),
        decreases v@.len() - i as int,
    {
        let id = v[i].0;
        if id < lo {
            lo = id;
        }
        if id > hi {
            hi = id;
        }
        i = i + 1;
    }
    (lo, hi)
}

/// The ceiling quotient of a nonnegative value by a positive divisor is
/// nonnegative.
proof fn lemma_ceil_div_nonneg(n: int, d: int)
    requires
        n >= 0,
        d > 0,
    ensures
        crate::wide::ceil_div(n, d) >= 0,
{
    lemma_div_is_ordered(-n, 0, d);
    vstd::arithmetic::div_mod::lemma_div_of0(d);
}

/// Law: at zero fee, depositing into a bin that has no shares yet and
/// immediately withdrawing every minted share returns exactly the deposited
/// token amounts.
///
/// The deposit splits into `(x, y)` summing to `amount`, mints one share
/// per deposited unit, and the full withdrawal's fixed-point ratio is
/// exactly one, so each reserve is returned whole. (With pre-existing
/// shares the minted amount is floored and the bound loosens: against a bin
/// holding one share over ten reserve units, a deposit of five mints
/// nothing at all.)
pub proof fn lemma_deposit_withdraw_inverse(active_bin: i32, bin: Bin, amount: int)
    requires
        bin.reserve_x == 0,
        bin.reserve_y == 0,
        0 < amount,
        in_i128(amount * (BONE as int)),
    ensures
        s_shares_to_mint(0, 0, 0, amount) == Ok::<int, Error>(amount),
        (s_deposit_split(active_bin, bin, amount) matches Ok(p) && s_withdraw_split(
            Bin { bin_id: bin.bin_id, reserve_x: p.0 as i128, reserve_y: p.1 as i128 },
            amount,
            amount,
        ) == Ok::<(int, int), Error>(p)),
{
    let b = BONE as int;
    lemma_div_pos_is_pos(amount, 2);
    lemma_div_nonincreasing(amount, 2);
    let p = match s_deposit_split(active_bin, bin, amount) {
        Ok(p) => p,
        Err(_) => (0int, 0int),
    };
    assert(0 <= p.0 <= amount && 0 <= p.1 <= amount && p.0 + p.1 == amount);
    // the removal ratio of a full withdrawal is exactly one
    lemma_div_multiples_vanish(b, amount * b);
    assert(((amount * b) * b) / (amount * b) == b);
    // and a ratio of one hands each reserve back unchanged
    lemma_div_multiples_vanish(p.0 * b, b);
    lemma_div_multiples_vanish(p.0, b);
    lemma_div_multiples_vanish(p.1 * b, b);
    lemma_div_multiples_vanish(p.1, b);
    assert((b * (p.0 * b)) / b / b == p.0);
    assert((b * (p.1 * b)) / b / b == p.1);
    assert(p.0 * b <= amount * b && p.1 * b <= amount * b);
}

/// What an exhausted bin consumes never exceeds what remains: the fill
/// ratio is at most one in fixed point.
proof fn lemma_consumed_le_remaining(sr: int, pot: int, rem: int)
    requires
        0 <= sr < pot,
        0 <= rem,
    ensures
        0 <= crate::wide::ceil_div(((sr * (BONE as int)) / pot) * rem, BONE as int) <= rem,
{
    let b = BONE as int;
    let ratio = (sr * b) / pot;
    lemma_mul_nonnegative(sr, b);
    lemma_div_pos_is_pos(sr * b, pot);
    lemma_mul_inequality(sr, pot, b);
    vstd::arithmetic::mul::lemma_mul_is_commutative(sr, b);
    vstd::arithmetic::mul::lemma_mul_is_commutative(pot, b);
    lemma_div_is_ordered(sr * b, pot * b, pot);
    lemma_div_multiples_vanish(b, pot);
    assert(ratio <= b);
    lemma_mul_nonnegative(ratio, rem);
    lemma_ceil_div_nonneg(ratio * rem, b);
    lemma_mul_inequality(ratio, b, rem);
    vstd::arithmetic::mul::lemma_mul_is_commutative(ratio, rem);
    vstd::arithmetic::mul::lemma_mul_is_commutative(b, rem);
    // ceil_div is monotone, and at `b * rem` it gives back `rem` exactly
    lemma_div_is_ordered(-(b * rem), -(ratio * rem), b);
    lemma_div_multiples_vanish(-rem, b);
    assert(b * (-rem) == -(b * rem)) by (nonlinear_arith);
}

} // verus!
