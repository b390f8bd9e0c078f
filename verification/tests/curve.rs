use amm::bin::{get_bin_position_in_vec, is_bin_in_vec, default_bin_vec};
use amm::error::Error;
use amm::math::{c_pow, downscale_floor, downscale_ceil, upscale, BONE};
use amm::price::{price_from_bin, price_from_bin_and_token};
use amm::shares::calculate_shares_to_mint;
use amm::storage::{
    Bin, BinShares, Config, bin_to_vec, bin_vec_to_raw, raw_to_bin_vec, get_vec_id_for_bin,
    get_first_bin_id_in_vec,
};
use amm::wide::Wide;

fn wide_of(v: i128) -> Wide {
    assert!(v >= 0);
    Wide { hi: 0, lo: v as u128 }
}

#[test]
fn bin_addressing_round_trip() {
    // splitting a bin id into (window, slot) loses nothing, on both sides
    // of zero and at window boundaries
    for bin_id in -1000i32..1000i32 {
        let vec_id = get_vec_id_for_bin(bin_id);
        let slot = get_bin_position_in_vec(bin_id);
        assert!(slot < 32);
        assert_eq!(vec_id as i64 * 32 + slot as i64, bin_id as i64);
        assert!(is_bin_in_vec(bin_id, vec_id));
        assert!(!is_bin_in_vec(bin_id, vec_id + 1));
    }
    assert_eq!(get_vec_id_for_bin(0), 0);
    assert_eq!(get_vec_id_for_bin(31), 0);
    assert_eq!(get_vec_id_for_bin(32), 1);
    assert_eq!(get_vec_id_for_bin(-1), -1);
    assert_eq!(get_vec_id_for_bin(-32), -1);
    assert_eq!(get_vec_id_for_bin(-33), -2);
    assert_eq!(get_bin_position_in_vec(-1), 31);
    assert_eq!(get_bin_position_in_vec(-32), 0);
    assert_eq!(get_first_bin_id_in_vec(-1), -32);
}

#[test]
fn default_window_carries_bin_ids() {
    let v = default_bin_vec(-1);
    assert_eq!(v.len(), 32);
    assert_eq!(v[0], Bin { bin_id: -32, reserve_x: 0, reserve_y: 0 });
    assert_eq!(v[31], Bin { bin_id: -1, reserve_x: 0, reserve_y: 0 });
}

#[test]
fn price_at_bin_zero_is_one() {
    let p = price_from_bin(10, 0, false).unwrap();
    assert_eq!(p, wide_of(BONE));
    let p = price_from_bin(10, 0, true).unwrap();
    assert_eq!(p, wide_of(BONE));
}

#[test]
fn price_is_the_squared_base() {
    // (1 + 10/10_000)^1 and ^2, in 18-decimal fixed point
    let p = price_from_bin(10, 1, false).unwrap();
    assert_eq!(p, wide_of(1_001_000_000_000_000_000));
    let p = price_from_bin(10, 2, false).unwrap();
    assert_eq!(p, wide_of(1_002_001_000_000_000_000));
    let p = price_from_bin(10, -1, false).unwrap();
    assert_eq!(p, wide_of(999_000_000_000_000_000));
}

#[test]
fn price_grows_with_the_bin_id() {
    let mut last = price_from_bin(10, -5, false).unwrap().lo;
    for id in -4i32..6i32 {
        let p = price_from_bin(10, id, false).unwrap();
        assert!(p.hi == 0 && p.lo > last);
        last = p.lo;
    }
}

#[test]
fn price_base_range_is_enforced() {
    // a full-basis-point step pushes the base out of range on both sides
    assert_eq!(price_from_bin(10_000, 1, false), Err(Error::ErrCPowBaseTooHigh));
    assert_eq!(price_from_bin(10_000, -1, false), Err(Error::ErrCPowBaseTooLow));
}

#[test]
fn reciprocal_price_round_trip() {
    let config = Config { token_x: 1, token_y: 2, bin_step: 10, active_bin: 0, fee: 0 };
    // quoting in Y uses the raw curve; quoting in X its reciprocal
    let raw = price_from_bin_and_token(&config, 1, 2).unwrap();
    assert_eq!(raw, wide_of(1_001_000_000_000_000_000));
    let recip = price_from_bin_and_token(&config, 1, 1).unwrap();
    // floor(BONE * BONE / 1.001e18)
    assert_eq!(recip, wide_of(999_000_999_000_999_000));
    // within one unit of last place of the price of the mirrored bin
    let mirrored = price_from_bin(10, -1, false).unwrap();
    let diff = mirrored.lo as i128 - recip.lo as i128;
    assert!(diff.abs() <= 1_000_000_000_000);
}

#[test]
fn c_pow_of_one_is_one() {
    let one = wide_of(BONE);
    let exp = wide_of(3 * BONE);
    assert_eq!(c_pow(&one, &exp, false).unwrap(), wide_of(BONE));
    assert_eq!(c_pow(&one, &exp, true).unwrap(), wide_of(BONE));
}

#[test]
fn c_pow_fractional_exponent_brackets_the_root() {
    // 4^(1/2) in fixed point: the series result must bracket 2.0 by
    // rounding direction, but 4.0 is beyond MAX_CPOW_BASE, so use 1.96^(1/2)
    let base = wide_of(1_960_000_000_000_000_000);
    let half = wide_of(BONE / 2);
    let lo = c_pow(&base, &half, false).unwrap();
    let hi = c_pow(&base, &half, true).unwrap();
    // the exact square root is 1.4; the 50-term series lands within a
    // tenth of a permille on either side
    assert_eq!(lo, wide_of(1_399_949_642_001_474_600));
    assert_eq!(hi, wide_of(1_400_054_061_307_069_020));
}

#[test]
fn c_pow_base_bounds() {
    let exp = wide_of(BONE);
    assert_eq!(c_pow(&wide_of(0), &exp, false), Err(Error::ErrCPowBaseTooLow));
    assert_eq!(
        c_pow(&wide_of(2 * BONE), &exp, false),
        Err(Error::ErrCPowBaseTooHigh)
    );
}

#[test]
fn scaling_round_trips() {
    let x = upscale(123_456, BONE);
    assert_eq!(downscale_floor(&x, BONE).unwrap(), 123_456);
    assert_eq!(downscale_ceil(&x, BONE).unwrap(), 123_456);
    // a value exceeding 128 bits is refused on the way down
    let huge = Wide { hi: 1, lo: 0 };
    assert_eq!(downscale_floor(&huge, 1), Err(Error::ErrMathApprox));
}

#[test]
fn shares_minting_rules() {
    let empty = BinShares { bin_id: 0, shares: 0 };
    let bin = Bin { bin_id: 0, reserve_x: 50, reserve_y: 50 };
    // the first depositor is seeded one share per unit
    assert_eq!(calculate_shares_to_mint(&empty, &bin, 77).unwrap(), 77);
    // later deposits are proportional to the reserves, floored
    let seeded = BinShares { bin_id: 0, shares: 100 };
    assert_eq!(calculate_shares_to_mint(&seeded, &bin, 10).unwrap(), 10);
    assert_eq!(calculate_shares_to_mint(&seeded, &bin, 3).unwrap(), 3);
    let lopsided = Bin { bin_id: 0, reserve_x: 200, reserve_y: 0 };
    assert_eq!(calculate_shares_to_mint(&seeded, &lopsided, 10).unwrap(), 5);
    // a drained bin with live shares cannot price a deposit
    let drained = Bin { bin_id: 0, reserve_x: 0, reserve_y: 0 };
    assert_eq!(calculate_shares_to_mint(&seeded, &drained, 10), Err(Error::ErrDivInternal));
}

#[test]
fn bin_encoding_is_compressed() {
    assert_eq!(bin_to_vec(&Bin { bin_id: 0, reserve_x: 5, reserve_y: 7 }), vec![5, 7]);
    assert_eq!(bin_to_vec(&Bin { bin_id: 1, reserve_x: 5, reserve_y: 0 }), vec![5]);
    assert_eq!(bin_to_vec(&Bin { bin_id: 2, reserve_x: 0, reserve_y: 7 }), vec![7]);
    assert_eq!(bin_to_vec(&Bin { bin_id: 3, reserve_x: 0, reserve_y: 0 }), vec![0]);
}

#[test]
fn window_codec_round_trips() {
    // build a window for ids 0..32 with mixed one-sided bins and an active
    // bin holding both reserves, encode it, and decode it back
    let mut window = default_bin_vec(0);
    let active_bin = 3;
    window[1] = Bin { bin_id: 1, reserve_x: 11, reserve_y: 0 };
    window[3] = Bin { bin_id: 3, reserve_x: 21, reserve_y: 22 };
    window[5] = Bin { bin_id: 5, reserve_x: 0, reserve_y: 31 };
    let raw = bin_vec_to_raw(&window);
    let decoded = raw_to_bin_vec(&raw, 0, active_bin);
    assert_eq!(decoded.len(), 32);
    for i in 0..32usize {
        assert_eq!(decoded[i], window[i]);
    }
}
