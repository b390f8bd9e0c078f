//! Fixed-point arithmetic for pool math.
//!
//! All prices and ratios are carried in 18-decimal fixed point on 256-bit
//! signed integers ([`Wide`]). `fixed_*` combine a product or quotient with a
//! directed rounding; [`c_pow`] evaluates `base^exp` for a fixed-point
//! exponent by exponentiation-by-squaring plus a binomial series for the
//! fractional part. Every function returns exactly what its spec-level
//! mirror (`s_*`) describes, with an error precisely where an intermediate
//! leaves the 256-bit range.

use vstd::prelude::*;
use vstd::arithmetic::div_mod::lemma_fundamental_div_mod;
use crate::error::Error;
use crate::wide::{
    Wide, w_val, in_i256, in_i128, ceil_div,
    i256_checked_add, i256_checked_sub, i256_checked_mul,
    wide_from_i128, wide_to_i128, wide_zero, wide_is_nonneg, wide_is_zero,
    wide_lt, wide_le, wide_div_floor, wide_div_ceil,
};

verus! {

/// The unit of the 18-decimal fixed-point representation.
pub const BONE: i128 = 1_000_000_000_000_000_000;

/// The unit in which the pool fee is expressed (`10^14`).
pub const FEE_SCALAR: i128 = 100_000_000_000_000;

/// Smallest base accepted by [`c_pow`].
pub const MIN_CPOW_BASE: i128 = 1;

/// Largest base accepted by [`c_pow`].
pub const MAX_CPOW_BASE: i128 = 2 * BONE - 1;

/// Series tolerance of [`c_pow`]'s fractional part.
pub const CPOW_PRECISION: i128 = 100_000_000;

/// A mathematical value, if it fits in 256 signed bits.
pub open spec fn chk(v: int) -> Option<int> {
    if in_i256(v) {
        Some(v)
    } else {
        None
    }
}

/// `a * b / one`, rounded down; `None` when the product overflows.
pub open spec fn s_fmul_floor(a: int, b: int, one: int) -> Option<int> {
    match chk(a * b) {
        Some(p) => Some(p / one),
        None => None,
    }
}

/// `a * b / one`, rounded up; `None` when the product overflows.
pub open spec fn s_fmul_ceil(a: int, b: int, one: int) -> Option<int> {
    match chk(a * b) {
        Some(p) => Some(ceil_div(p, one)),
        None => None,
    }
}

/// `a * one / b`, rounded down; `None` when the product overflows.
pub open spec fn s_fdiv_floor(a: int, b: int, one: int) -> Option<int> {
    match chk(a * one) {
        Some(p) => Some(p / b),
        None => None,
    }
}

/// `a * one / b`, rounded up; `None` when the product overflows.
pub open spec fn s_fdiv_ceil(a: int, b: int, one: int) -> Option<int> {
    match chk(a * one) {
        Some(p) => Some(ceil_div(p, b)),
        None => None,
    }
}

/// Fixed-point multiply rounding toward negative infinity.
pub fn fixed_mul_floor(a: &Wide, b: &Wide, one: &Wide) -> (r: Result<Wide, Error>)
    requires
        w_val(*one) > 0,
    ensures
        match s_fmul_floor(w_val(*a), w_val(*b), w_val(*one)) {
            Some(v) => r matches Ok(w) && w_val(w) == v,
            None => r == Err::<Wide, Error>(Error::ErrMulOverflow),
        },
{
    match i256_checked_mul(*a, *b) {
        Some(p) => Ok(wide_div_floor(p, *one)),
        None => Err(Error::ErrMulOverflow),
    }
}

/// Fixed-point multiply rounding toward positive infinity.
pub fn fixed_mul_ceil(a: &Wide, b: &Wide, one: &Wide) -> (r: Result<Wide, Error>)
    requires
        w_val(*one) > 0,
    ensures
        match s_fmul_ceil(w_val(*a), w_val(*b), w_val(*one)) {
            Some(v) => r matches Ok(w) && w_val(w) == v,
            None => r == Err::<Wide, Error>(Error::ErrMulOverflow),
        },
{
    match i256_checked_mul(*a, *b) {
        Some(p) => Ok(wide_div_ceil(p, *one)),
        None => Err(Error::ErrMulOverflow),
    }
}

/// Fixed-point divide rounding toward negative infinity.
pub fn fixed_div_floor(a: &Wide, b: &Wide, one: &Wide) -> (r: Result<Wide, Error>)
    requires
        w_val(*b) > 0,
        w_val(*one) > 0,
    ensures
        match s_fdiv_floor(w_val(*a), w_val(*b), w_val(*one)) {
            Some(v) => r matches Ok(w) && w_val(w) == v,
            None => r == Err::<Wide, Error>(Error::ErrMulOverflow),
        },
{
    match i256_checked_mul(*a, *one) {
        Some(p) => Ok(wide_div_floor(p, *b)),
        None => Err(Error::ErrMulOverflow),
    }
}

/// Fixed-point divide rounding toward positive infinity.
pub fn fixed_div_ceil(a: &Wide, b: &Wide, one: &Wide) -> (r: Result<Wide, Error>)
    requires
        w_val(*b) > 0,
        w_val(*one) > 0,
    ensures
        match s_fdiv_ceil(w_val(*a), w_val(*b), w_val(*one)) {
            Some(v) => r matches Ok(w) && w_val(w) == v,
            None => r == Err::<Wide, Error>(Error::ErrMulOverflow),
        },
{
    match i256_checked_mul(*a, *one) {
        Some(p) => Ok(wide_div_ceil(p, *b)),
        None => Err(Error::ErrMulOverflow),
    }
}

/// Promote a token amount into the 18-decimal domain: `amount * scalar`.
/// The caller ensures the product stays within 128 bits, as the host does.
pub fn upscale(amount: i128, scalar: i128) -> (r: Wide)
    requires
        in_i128(amount * scalar),
    ensures
        w_val(r) == amount * scalar,
{
    wide_from_i128(amount * scalar)
}

/// Leave the 18-decimal domain: `amount / scalar` rounded down, signalling
/// `ErrMathApprox` when the result does not fit in 128 bits.
pub fn downscale_floor(amount: &Wide, scalar: i128) -> (r: Result<i128, Error>)
    requires
        scalar > 0,
    ensures
        in_i128(w_val(*amount) / (scalar as int)) ==> (r matches Ok(v)
            && v == w_val(*amount) / (scalar as int)),
        !in_i128(w_val(*amount) / (scalar as int)) ==> r == Err::<i128, Error>(
            Error::ErrMathApprox,
        ),
{
    let s = wide_from_i128(scalar);
    let q = wide_div_floor(*amount, s);
    match wide_to_i128(q) {
        Some(v) => Ok(v),
        None => Err(Error::ErrMathApprox),
    }
}

/// Leave the 18-decimal domain: `amount / scalar` rounded up, signalling
/// `ErrMathApprox` when the result does not fit in 128 bits.
pub fn downscale_ceil(amount: &Wide, scalar: i128) -> (r: Result<i128, Error>)
    requires
        scalar > 0,
    ensures
        in_i128(ceil_div(w_val(*amount), scalar as int)) ==> (r matches Ok(v)
            && v == ceil_div(w_val(*amount), scalar as int)),
        !in_i128(ceil_div(w_val(*amount), scalar as int)) ==> r == Err::<i128, Error>(
            Error::ErrMathApprox,
        ),
{
    let s = wide_from_i128(scalar);
    let q = wide_div_ceil(*amount, s);
    match wide_to_i128(q) {
        Some(v) => Ok(v),
        None => Err(Error::ErrMathApprox),
    }
}

/// `a - b`, refused with `ErrSubUnderflow` when it would turn negative,
/// and with `ErrAddOverflow` when the difference leaves 256 bits upward
/// (possible only for a negative `b`, where subtracting adds magnitude).
pub fn sub_no_negative(a: &Wide, b: &Wide) -> (r: Result<Wide, Error>)
    ensures
        w_val(*a) < w_val(*b) ==> r == Err::<Wide, Error>(Error::ErrSubUnderflow),
        w_val(*a) >= w_val(*b) && in_i256(w_val(*a) - w_val(*b)) ==> (r matches Ok(w)
            && w_val(w) == w_val(*a) - w_val(*b)),
        w_val(*a) >= w_val(*b) && !in_i256(w_val(*a) - w_val(*b)) ==> r == Err::<Wide, Error>(
            Error::ErrAddOverflow,
        ),
{
    if wide_lt(a, b) {
        Err(Error::ErrSubUnderflow)
    } else {
        match i256_checked_sub(*a, *b) {
            Some(w) => Ok(w),
            None => Err(Error::ErrAddOverflow),
        }
    }
}

/// One squaring round of exponentiation-by-squaring, as the loop performs it.
pub open spec fn s_powi_loop(a: int, n: nat, z: int) -> Option<int>
    decreases n,
{
    if n == 0 {
        Some(z)
    } else {
        match s_fmul_floor(a, a, BONE as int) {
            Some(a2) => {
                if n % 2 == 1 {
                    match s_fmul_floor(z, a2, BONE as int) {
                        Some(z2) => s_powi_loop(a2, n / 2, z2),
                        None => None,
                    }
                } else {
                    s_powi_loop(a2, n / 2, z)
                }
            }
            None => None,
        }
    }
}

/// `a^n` in 18-decimal fixed point, as exponentiation-by-squaring with a
/// floor-rounded multiply at each step computes it; `None` on overflow.
pub open spec fn s_powi(a: int, n: nat) -> Option<int> {
    s_powi_loop(a, n / 2, if n % 2 == 1 { a } else { BONE as int })
}

/// `a^n` for an integer exponent, by squaring.
fn c_powi(a: &Wide, n: u32) -> (r: Result<Wide, Error>)
    ensures
        match s_powi(w_val(*a), n as nat) {
            Some(v) => r matches Ok(w) && w_val(w) == v,
            None => r == Err::<Wide, Error>(Error::ErrMulOverflow),
        },
{
    let bone = wide_from_i128(BONE);
    let mut z = if n % 2 != 0 { *a } else { bone };
    let mut base = *a;
    let mut m: u32 = n / 2;
    while m != 0
        invariant
            w_val(bone) == BONE as int,
            s_powi(w_val(*a), n as nat) == s_powi_loop(w_val(base), m as nat, w_val(z)),
        decreases m,
    {
        match fixed_mul_floor(&base, &base, &bone) {
            Ok(b2) => {
                if m % 2 != 0 {
                    match fixed_mul_floor(&z, &b2, &bone) {
                        Ok(z2) => { z = z2; }
                        Err(e) => { return Err(e); }
                    }
                }
                base = b2;
                m = m / 2;
            }
            Err(e) => { return Err(e); }
        }
    }
    Ok(z)
}

/// The update one series iteration applies to the running term.
pub open spec fn s_approx_term(x: int, exp: int, term: int, i: int) -> Option<int> {
    let bigk = i * (BONE as int);
    let c = exp - (bigk - BONE as int);
    match s_fmul_floor(c, x, BONE as int) {
        Some(cx) => match s_fmul_floor(term, cx, BONE as int) {
            Some(t2) => s_fdiv_floor(t2, bigk, BONE as int),
            None => None,
        },
        None => None,
    }
}

/// The binomial series loop from iteration `i` on: final `(term, sum)`,
/// or `None` when an intermediate overflows.
pub open spec fn s_approx_loop(x: int, exp: int, prec: int, term: int, sum: int, i: int)
    -> Option<(int, int)>
    decreases 51 - i,
{
    if i > 50 || i < 1 {
        Some((term, sum))
    } else {
        match s_approx_term(x, exp, term, i) {
            Some(t) => match chk(sum + t) {
                Some(sum2) => {
                    if (if t < 0 { -t } else { t }) <= prec {
                        Some((t, sum2))
                    } else {
                        s_approx_loop(x, exp, prec, t, sum2, i + 1)
                    }
                }
                None => None,
            },
            None => None,
        }
    }
}

/// The bias applied after the series: nudge the sum by the last term so it
/// errs toward the requested rounding direction.
pub open spec fn s_approx_adjust(x: int, round_up: bool, term: int, sum: int) -> Option<int> {
    if x > 0 {
        if (term > 0 && !round_up) || (term < 0 && round_up) {
            chk(sum - term)
        } else {
            Some(sum)
        }
    } else if !round_up {
        chk(sum + term)
    } else {
        Some(sum)
    }
}

/// `base^(exp/BONE)` for a fractional exponent, by the binomial series
/// `(1+x)^e = sum of C(e,k) x^k` capped at 50 terms.
pub open spec fn s_pow_approx(base: int, exp: int, prec: int, round_up: bool) -> Option<int> {
    let x = base - BONE as int;
    match s_approx_loop(x, exp, prec, BONE as int, BONE as int, 1) {
        Some((t, s)) => s_approx_adjust(x, round_up, t, s),
        None => None,
    }
}

/// Approximate power for the fractional exponent part.
fn c_pow_approx(base: &Wide, exp: &Wide, precision: &Wide, round_up: bool)
    -> (r: Result<Wide, Error>)
    requires
        MIN_CPOW_BASE as int <= w_val(*base) <= MAX_CPOW_BASE as int,
        0 <= w_val(*exp) < BONE as int,
        0 <= w_val(*precision),
    ensures
        match s_pow_approx(w_val(*base), w_val(*exp), w_val(*precision), round_up) {
            Some(v) => r matches Ok(w) && w_val(w) == v,
            None => r == Err::<Wide, Error>(Error::ErrMulOverflow),
        },
{
    let bone = wide_from_i128(BONE);
    let zero = wide_zero();
    let x = match i256_checked_sub(*base, bone) {
        Some(w) => w,
        None => {
            proof { assert(false); }
            return Err(Error::ErrMulOverflow);
        }
    };
    let mut term = bone;
    let mut sum = term;
    let mut i: u32 = 1;
    let ghost full = s_approx_loop(
        w_val(x), w_val(*exp), w_val(*precision), BONE as int, BONE as int, 1,
    );
    while i <= 50
        invariant_except_break
            1 <= i <= 51,
            w_val(bone) == BONE as int,
            w_val(zero) == 0,
            MIN_CPOW_BASE as int <= w_val(*base) <= MAX_CPOW_BASE as int,
            0 <= w_val(*exp) < BONE as int,
            0 <= w_val(*precision),
            w_val(x) == w_val(*base) - BONE as int,
            full == s_approx_loop(
                w_val(x), w_val(*exp), w_val(*precision), w_val(term), w_val(sum), i as int,
            ),
            full == s_approx_loop(
                w_val(x), w_val(*exp), w_val(*precision), BONE as int, BONE as int, 1,
            ),
        ensures
            full == Some((w_val(term), w_val(sum))),
        decreases 51 - i,
    {
        let big_k = wide_from_i128((i as i128) * BONE);
        // c = exp - (big_k - BONE)
        let k_less_one = match i256_checked_sub(big_k, bone) {
            Some(w) => w,
            None => { proof { assert(false); } return Err(Error::ErrMulOverflow); }
        };
        let c = match i256_checked_sub(*exp, k_less_one) {
            Some(w) => w,
            None => { proof { assert(false); } return Err(Error::ErrMulOverflow); }
        };
        let cx = match fixed_mul_floor(&c, &x, &bone) {
            Ok(w) => w,
            Err(e) => { return Err(e); }
        };
        let t2 = match fixed_mul_floor(&term, &cx, &bone) {
            Ok(w) => w,
            Err(e) => { return Err(e); }
        };
        term = match fixed_div_floor(&t2, &big_k, &bone) {
            Ok(w) => w,
            Err(e) => { return Err(e); }
        };
        sum = match i256_checked_add(sum, term) {
            Some(w) => w,
            None => { return Err(Error::ErrMulOverflow); }
        };
        let neg_prec = match i256_checked_sub(zero, *precision) {
            Some(w) => w,
            None => {
                proof {
                    crate::wide::lemma_w_val_in_range(*precision);
                    assert(false);
                }
                return Err(Error::ErrMulOverflow);
            }
        };
        if wide_le(&term, precision) && wide_le(&neg_prec, &term) {
            break;
        }
        i = i + 1;
    }
    if wide_lt(&zero, &x) {
        let term_pos = wide_lt(&zero, &term);
        let term_neg = wide_lt(&term, &zero);
        if (term_pos && !round_up) || (term_neg && round_up) {
            match i256_checked_sub(sum, term) {
                Some(w) => Ok(w),
                None => Err(Error::ErrMulOverflow),
            }
        } else {
            Ok(sum)
        }
    } else if !round_up {
        match i256_checked_add(sum, term) {
            Some(w) => Ok(w),
            None => Err(Error::ErrMulOverflow),
        }
    } else {
        Ok(sum)
    }
}

/// `base^exp` with 18-decimal fixed-point base and exponent, decomposed as
/// `base^int_part * base^frac_part`; `None` on internal overflow.
pub open spec fn s_c_pow(base: int, exp: int, round_up: bool) -> Option<int> {
    let ip = exp / (BONE as int);
    let remain = exp % (BONE as int);
    match s_powi(base, ip as nat) {
        Some(whole) => {
            if remain == 0 {
                Some(whole)
            } else {
                match s_pow_approx(base, remain, CPOW_PRECISION as int, round_up) {
                    Some(part) => {
                        if round_up {
                            s_fmul_ceil(whole, part, BONE as int)
                        } else {
                            s_fmul_floor(whole, part, BONE as int)
                        }
                    }
                    None => None,
                }
            }
        }
        None => None,
    }
}

/// `base^exp` in 18-decimal fixed point.
///
/// The base must lie in `[MIN_CPOW_BASE, MAX_CPOW_BASE]`; the exponent must
/// be nonnegative with an integer part that fits the host's word.
pub fn c_pow(base: &Wide, exp: &Wide, round_up: bool) -> (r: Result<Wide, Error>)
    requires
        0 <= w_val(*exp),
        w_val(*exp) / (BONE as int) <= u32::MAX as int,
    ensures
        w_val(*base) < MIN_CPOW_BASE as int ==> r == Err::<Wide, Error>(Error::ErrCPowBaseTooLow),
        w_val(*base) > MAX_CPOW_BASE as int ==> r == Err::<Wide, Error>(
            Error::ErrCPowBaseTooHigh,
        ),
        MIN_CPOW_BASE as int <= w_val(*base) <= MAX_CPOW_BASE as int ==> match s_c_pow(
            w_val(*base), w_val(*exp), round_up,
        ) {
            Some(v) => r matches Ok(w) && w_val(w) == v,
            None => r == Err::<Wide, Error>(Error::ErrMulOverflow),
        },
{
    let min = wide_from_i128(MIN_CPOW_BASE);
    let max = wide_from_i128(MAX_CPOW_BASE);
    if wide_lt(base, &min) {
        return Err(Error::ErrCPowBaseTooLow);
    }
    if wide_lt(&max, base) {
        return Err(Error::ErrCPowBaseTooHigh);
    }
    let bone = wide_from_i128(BONE);
    let ip_w = wide_div_floor(*exp, bone);
    proof {
        lemma_fundamental_div_mod(w_val(*exp), BONE as int);
        vstd::arithmetic::div_mod::lemma_div_pos_is_pos(w_val(*exp), BONE as int);
        vstd::arithmetic::div_mod::lemma_mod_bound(w_val(*exp), BONE as int);
    }
    let ip = match wide_to_i128(ip_w) {
        Some(v) => v,
        None => {
            proof { assert(false); }
            return Err(Error::ErrMulOverflow);
        }
    };
    let ip_scaled = match i256_checked_mul(ip_w, bone) {
        Some(w) => w,
        None => {
            proof { assert(false); }
            return Err(Error::ErrMulOverflow);
        }
    };
    let remain = match i256_checked_sub(*exp, ip_scaled) {
        Some(w) => w,
        None => {
            proof { assert(false); }
            return Err(Error::ErrMulOverflow);
        }
    };
    let whole = match c_powi(base, ip as u32) {
        Ok(w) => w,
        Err(e) => { return Err(e); }
    };
    if wide_is_zero(&remain) {
        Ok(whole)
    } else {
        let prec = wide_from_i128(CPOW_PRECISION);
        let partial = match c_pow_approx(base, &remain, &prec, round_up) {
            Ok(w) => w,
            Err(e) => { return Err(e); }
        };
        if round_up {
            fixed_mul_ceil(&whole, &partial, &bone)
        } else {
            fixed_mul_floor(&whole, &partial, &bone)
        }
    }
}

} // verus!
