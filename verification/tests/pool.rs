use amm::storage::{Bin, BinShares, Config, DepositArgs, Position};
use amm::bin::get_shares_from_position;
use amm::constants::BIN_VEC_SIZE;
use amm::error::Error;
use amm::Contract;

fn test_config() -> Config {
    Config { token_x: 1, token_y: 2, bin_step: 10, active_bin: 0, fee: 0 }
}

fn deposit(bin_id_or_offset: i32, amount: i128) -> DepositArgs {
    DepositArgs { is_remove: false, bin_id_or_offset, amount }
}

fn remove(bin_id_or_offset: i32, amount: i128) -> DepositArgs {
    DepositArgs { is_remove: true, bin_id_or_offset, amount }
}

#[test]
fn test_get_shares_from_position() {
    let mut pos = Position { bin_shares: Vec::new() };

    pos.bin_shares.push(BinShares { bin_id: 1, shares: 100 });
    pos.bin_shares.push(BinShares { bin_id: 2, shares: 100 });
    pos.bin_shares.push(BinShares { bin_id: 4, shares: 100 });

    let found = get_shares_from_position(&pos, 3);

    assert_eq!(found, BinShares { bin_id: 3, shares: 0 });
    // the position itself is untouched
    assert_eq!(pos.bin_shares.len(), 3);
}

#[test]
fn things_work() {
    let mut pool = Contract::new(test_config());

    let modify_args = vec![deposit(0, 10_000_000_0), deposit(1, 10_000_000_0)];

    let amounts = pool.modify_liquidity(1, 0, &modify_args, false).unwrap();
    assert_eq!(amounts, (5_000_000_0, 15_000_000_0));

    let shares_vec = pool.get_shares_vec(0);
    // we fill the vec fully with default data.
    assert_eq!(BinShares { bin_id: 0, shares: 10_000_000_0 }, shares_vec[0]);
    assert_eq!(BinShares { bin_id: 1, shares: 10_000_000_0 }, shares_vec[1]);
    assert!(
        shares_vec.len() == BIN_VEC_SIZE as usize && shares_vec
            .iter()
            .rev()
            .take((BIN_VEC_SIZE - 2) as usize)
            .all(|x| x.shares == 0)
    );

    let bin_vec = pool.get_bin_vec(0);
    // 50 50 distribution at first deposit by default.
    // we fill the vec fully with default data.
    assert_eq!(Bin { bin_id: 0, reserve_x: 5_000_000_0, reserve_y: 5_000_000_0 }, bin_vec[0]);
    assert_eq!(Bin { bin_id: 1, reserve_x: 0, reserve_y: 10_000_000_0 }, bin_vec[1]);
    assert!(
        bin_vec.len() == BIN_VEC_SIZE as usize && bin_vec
            .iter()
            .rev()
            .take((BIN_VEC_SIZE - 2) as usize)
            .all(|x| x.reserve_x == 0 && x.reserve_y == 0)
    );

    let swap_res = pool.swap_exact_amount_in(1, 6_000_000_0, 0, 1).unwrap();

    // the caller pays 6_000_000_0 of X and receives the swap result of Y
    assert_eq!(5_999_000_9, swap_res);
    assert_eq!(1, pool.get_config().active_bin);

    let modify_args = vec![remove(0, 10_000_000_0), remove(1, 10_000_000_0)];

    let amounts = pool.modify_liquidity(1, 0, &modify_args, false).unwrap();
    // we swapped so we got a small amount of fees
    assert!((amounts.0 + amounts.1) < -20_000_000_0);
}

#[test]
fn deposit_multiple_times() {
    let mut pool = Contract::new(test_config());

    let modify_args = vec![deposit(0, 10_000_000_0), deposit(1, 10_000_000_0)];
    pool.modify_liquidity(1, 0, &modify_args, false).unwrap();

    let modify_args = vec![deposit(0, 10_000_000_0), deposit(1, 10_000_000_0)];
    pool.modify_liquidity(1, 0, &modify_args, false).unwrap();

    let position = pool.get_position(1, 0).unwrap();

    let expected_position = Position {
        bin_shares: vec![
            BinShares { bin_id: 0, shares: 20_000_000_0 },
            BinShares { bin_id: 1, shares: 20_000_000_0 },
        ],
    };
    assert_eq!(expected_position, position);

    let modify_args = vec![remove(0, 20_000_000_0), remove(1, 20_000_000_0)];

    let amounts = pool.modify_liquidity(1, 0, &modify_args, false).unwrap();
    assert_eq!(amounts, (-10_000_000_0, -30_000_000_0));
}

#[test]
fn deposit_and_remove_in_same_call() {
    let mut pool = Contract::new(test_config());

    let modify_args = vec![deposit(0, 10_000_000_0), deposit(1, 10_000_000_0)];
    pool.modify_liquidity(1, 0, &modify_args, false).unwrap();

    let modify_args = vec![
        remove(0, 10_000_000_0),
        remove(1, 10_000_000_0),
        deposit(2, 10_000_000_0),
        deposit(3, 10_000_000_0),
    ];

    let amounts = pool.modify_liquidity(1, 0, &modify_args, false).unwrap();

    let position = pool.get_position(1, 0).unwrap();

    let expected_position = Position {
        bin_shares: vec![
            BinShares { bin_id: 2, shares: 10_000_000_0 },
            BinShares { bin_id: 3, shares: 10_000_000_0 },
        ],
    };

    assert_eq!(expected_position, position);
    // bin 0 remove (5, 5)
    // bin 1 remove (0, 10)
    // bin 2 add (0, 10)
    // bin 3 add (0, 10)
    // = (-5, 5)
    assert_eq!(amounts, (-5_000_000_0, 5_000_000_0));
}

#[test]
fn empty_batch_is_refused() {
    let mut pool = Contract::new(test_config());
    let args: Vec<DepositArgs> = Vec::new();
    assert_eq!(pool.modify_liquidity(1, 0, &args, false), Err(Error::ErrEmptyBatch));
    // nothing was touched
    assert!(pool.get_position(1, 0).is_none());
}

#[test]
fn zero_amount_is_refused() {
    let mut pool = Contract::new(test_config());
    let args = vec![deposit(0, 0)];
    assert_eq!(pool.modify_liquidity(1, 0, &args, false), Err(Error::ErrNegativeOrZero));
    let args = vec![remove(0, -3)];
    assert_eq!(pool.modify_liquidity(1, 0, &args, false), Err(Error::ErrNegativeOrZero));
}

#[test]
fn withdrawing_more_than_owned_is_refused() {
    let mut pool = Contract::new(test_config());
    let args = vec![deposit(0, 100)];
    pool.modify_liquidity(1, 0, &args, false).unwrap();
    let args = vec![remove(0, 101)];
    assert_eq!(pool.modify_liquidity(1, 0, &args, false), Err(Error::ErrSubUnderflow));
    // the failed batch left the position as it was
    let position = pool.get_position(1, 0).unwrap();
    assert_eq!(position.bin_shares, vec![BinShares { bin_id: 0, shares: 100 }]);
}

#[test]
fn offset_from_active_resolves_bins() {
    let mut pool = Contract::new(Config { active_bin: 5, ..test_config() });
    let args = vec![deposit(-1, 100), deposit(1, 100)];
    pool.modify_liquidity(1, 0, &args, true).unwrap();
    let position = pool.get_position(1, 0).unwrap();
    assert_eq!(
        position.bin_shares,
        vec![BinShares { bin_id: 4, shares: 100 }, BinShares { bin_id: 6, shares: 100 }]
    );
}

#[test]
fn swap_input_validation() {
    let mut pool = Contract::new(test_config());
    assert_eq!(pool.swap_exact_amount_in(1, 0, 0, 1), Err(Error::ErrNegativeOrZero));
    assert_eq!(pool.swap_exact_amount_in(1, 10, -1, 1), Err(Error::ErrNegative));
    assert_eq!(pool.swap_exact_amount_in(1, 10, 0, 99), Err(Error::ErrUnknownToken));
}

#[test]
fn swap_without_liquidity_is_refused() {
    let mut pool = Contract::new(test_config());
    assert_eq!(
        pool.swap_exact_amount_in(1, 10_000_000_0, 0, 1),
        Err(Error::ErrInsufficientLiquidity)
    );
    // the pool is untouched
    assert_eq!(pool.get_config().active_bin, 0);
}

#[test]
fn swap_below_minimum_output_is_refused() {
    let mut pool = Contract::new(test_config());
    let args = vec![deposit(0, 10_000_000_0), deposit(1, 10_000_000_0)];
    pool.modify_liquidity(1, 0, &args, false).unwrap();
    assert_eq!(
        pool.swap_exact_amount_in(1, 6_000_000_0, 6_000_000_0, 1),
        Err(Error::ErrInsufficientOutput)
    );
    // a failed swap reverts everything, including the active bin
    assert_eq!(pool.get_config().active_bin, 0);
    assert_eq!(
        pool.get_bin_vec(0)[0],
        Bin { bin_id: 0, reserve_x: 5_000_000_0, reserve_y: 5_000_000_0 }
    );
}

#[test]
fn swap_y_for_x_walks_left() {
    let mut pool = Contract::new(Config { active_bin: 1, ..test_config() });
    // bins 0 and 1 hold only X when the active bin is above them
    let args = vec![deposit(0, 10_000_000_0), deposit(1, 10_000_000_0)];
    pool.modify_liquidity(1, 0, &args, false).unwrap();
    let out = pool.swap_exact_amount_in(1, 5_000_000_0, 0, 2).unwrap();
    assert!(out > 0);
    assert!(pool.get_config().active_bin <= 1);
}

#[test]
fn first_deposit_withdraws_back_exactly() {
    // at zero fee, an immediate full withdrawal of a first deposit returns
    // exactly what went in, on every side of the active bin
    for (bin, amount) in [(0, 999), (0, 1000), (-3, 777), (5, 123_456_789)] {
        let mut pool = Contract::new(test_config());
        let (dx, dy) = pool
            .modify_liquidity(1, 0, &vec![deposit(bin, amount)], false)
            .unwrap();
        assert_eq!(dx + dy, amount);
        let (wx, wy) = pool
            .modify_liquidity(1, 0, &vec![remove(bin, amount)], false)
            .unwrap();
        assert_eq!((wx, wy), (-dx, -dy));
    }
}

#[test]
fn position_survives_partial_withdrawal() {
    let mut pool = Contract::new(test_config());
    let args = vec![deposit(2, 1000)];
    pool.modify_liquidity(7, 3, &args, false).unwrap();
    let args = vec![remove(2, 400)];
    let amounts = pool.modify_liquidity(7, 3, &args, false).unwrap();
    assert_eq!(amounts, (0, -400));
    let position = pool.get_position(7, 3).unwrap();
    assert_eq!(position.bin_shares, vec![BinShares { bin_id: 2, shares: 600 }]);
    // full withdrawal prunes the record
    let args = vec![remove(2, 600)];
    pool.modify_liquidity(7, 3, &args, false).unwrap();
    let position = pool.get_position(7, 3).unwrap();
    assert_eq!(position.bin_shares.len(), 0);
}

#[test]
fn arithmetic_overflow_is_reported() {
    let mut pool = Contract::new(Config { active_bin: 1, ..test_config() });
    // resolving an offset past the end of the bin grid overflows
    let args = vec![deposit(i32::MAX, 100)];
    assert_eq!(pool.modify_liquidity(1, 0, &args, true), Err(Error::ErrAddOverflow));
    // an input too large for the fixed-point domain is refused
    let args = vec![deposit(0, 100)];
    pool.modify_liquidity(1, 0, &args, false).unwrap();
    assert_eq!(
        pool.swap_exact_amount_in(1, i128::MAX, 0, 2),
        Err(Error::ErrMulOverflow)
    );
}
