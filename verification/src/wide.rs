//! 256-bit signed integers for pool math.
//!
//! Prices and intermediate fixed-point products do not fit in 128 bits, so
//! they are carried in [`Wide`], a two's-complement pair of words whose
//! mathematical value is [`w_val`]. The ring operations come from the
//! `ethnum` crate through trusted wrappers; comparisons, floor and ceiling
//! division are verified here on top of them.

use vstd::prelude::*;
use vstd::arithmetic::div_mod::{
    lemma_fundamental_div_mod, lemma_fundamental_div_mod_converse,
    lemma_div_is_ordered_by_denominator, lemma_div_is_ordered,
};

verus! {

/// A 256-bit signed integer: value `hi * 2^128 + lo` (two's complement).
#[derive(Clone, Copy, Debug, PartialEq, Eq, Structural)]
pub struct Wide {
    pub hi: i128,
    pub lo: u128,
}

/// 2^128, the weight of the high word.
pub open spec fn word() -> int {
    0x1_0000_0000_0000_0000_0000_0000_0000_0000int
}

/// 2^255, one past the largest 256-bit signed value.
pub open spec fn i256_lim() -> int {
    0x8000_0000_0000_0000_0000_0000_0000_0000_0000_0000_0000_0000_0000_0000_0000_0000int
}

/// The mathematical value of a 256-bit pair.
pub open spec fn w_val(w: Wide) -> int {
    w.hi * word() + w.lo
}

/// Whether a mathematical integer is representable in 256 signed bits.
pub open spec fn in_i256(v: int) -> bool {
    -i256_lim() <= v < i256_lim()
}

/// Whether a mathematical integer is representable in 128 signed bits.
pub open spec fn in_i128(v: int) -> bool {
    i128::MIN <= v <= i128::MAX
}

/// Truncating (toward zero) division, for a positive divisor.
pub open spec fn trunc_div(a: int, d: int) -> int {
    if a >= 0 {
        a / d
    } else {
        -((-a) / d)
    }
}

/// Truncating remainder matching [`trunc_div`], for a positive divisor.
pub open spec fn trunc_rem(a: int, d: int) -> int {
    if a >= 0 {
        a % d
    } else {
        -((-a) % d)
    }
}

/// Ceiling division, for a positive divisor.
pub open spec fn ceil_div(a: int, d: int) -> int {
    -((-a) / d)
}

/// Every 256-bit pair's value lies in the 256-bit signed range.
pub proof fn lemma_w_val_in_range(w: Wide)
    ensures
        in_i256(w_val(w)),
{
    assert(w.hi * word() >= i128::MIN * word()) by (nonlinear_arith)
        requires w.hi >= i128::MIN;
    assert(w.hi * word() <= i128::MAX * word()) by (nonlinear_arith)
        requires w.hi <= i128::MAX;
}

/// Relates truncating and floor division/remainder for a negative dividend.
pub proof fn lemma_trunc_of_negative(n: int, d: int)
    requires
        d > 0,
        n < 0,
    ensures
        (-n) % d == 0 ==> n / d == -((-n) / d) && n % d == 0,
        (-n) % d != 0 ==> n / d == -((-n) / d) - 1 && n % d == d - (-n) % d,
{
    let m = -n;
    let qm = m / d;
    let rm = m % d;
    lemma_fundamental_div_mod(m, d);
    assert(m == d * qm + rm);
    if rm == 0 {
        assert(n == (-qm) * d + 0) by (nonlinear_arith)
            requires m == d * qm + rm, rm == 0, n == -m;
        lemma_fundamental_div_mod_converse(n, d, -qm, 0);
    } else {
        assert(n == (-qm - 1) * d + (d - rm)) by (nonlinear_arith)
            requires m == d * qm + rm, n == -m;
        lemma_fundamental_div_mod_converse(n, d, -qm - 1, d - rm);
    }
}

/// The product of two 128-bit values always fits in 256 bits.
pub proof fn lemma_i128_product_fits(a: int, b: int)
    requires
        in_i128(a),
        in_i128(b),
    ensures
        in_i256(a * b),
{
    assert(-i256_lim() <= a * b < i256_lim()) by (nonlinear_arith)
        requires
            -0x80000000000000000000000000000000 <= a <= 0x7fffffffffffffffffffffffffffffff,
            -0x80000000000000000000000000000000 <= b <= 0x7fffffffffffffffffffffffffffffff,
    ;
}

/// A quotient by a divisor of at least two stays clear of the range ends.
proof fn lemma_quotient_bound(x: int, d: int)
    requires
        0 <= x <= i256_lim(),
        d >= 2,
    ensures
        0 <= x / d,
        x / d + 1 < i256_lim(),
{
    lemma_div_is_ordered_by_denominator(x, 2, d);
    lemma_div_is_ordered(x, i256_lim(), 2);
    assert(i256_lim() / 2 + 1 < i256_lim());
    vstd::arithmetic::div_mod::lemma_div_pos_is_pos(x, d);
}

/// Relies on `ethnum::I256::checked_add`: 256-bit signed addition,
/// `None` exactly on overflow.
#[verifier::external_body]
pub(crate) fn i256_checked_add(a: Wide, b: Wide) -> (r: Option<Wide>)
    ensures
        r is Some <==> in_i256(w_val(a) + w_val(b)),
        (r matches Some(w) ==> w_val(w) == w_val(a) + w_val(b)),
{
    let x = ethnum::I256::from_words(a.hi, a.lo as i128);
    let y = ethnum::I256::from_words(b.hi, b.lo as i128);
    match x.checked_add(y) {
        Some(z) => {
            let (hi, lo) = z.into_words();
            Some(Wide { hi, lo: lo as u128 })
        }
        None => None,
    }
}

/// Relies on `ethnum::I256::checked_sub`: 256-bit signed subtraction,
/// `None` exactly on overflow.
#[verifier::external_body]
pub(crate) fn i256_checked_sub(a: Wide, b: Wide) -> (r: Option<Wide>)
    ensures
        r is Some <==> in_i256(w_val(a) - w_val(b)),
        (r matches Some(w) ==> w_val(w) == w_val(a) - w_val(b)),
{
    let x = ethnum::I256::from_words(a.hi, a.lo as i128);
    let y = ethnum::I256::from_words(b.hi, b.lo as i128);
    match x.checked_sub(y) {
        Some(z) => {
            let (hi, lo) = z.into_words();
            Some(Wide { hi, lo: lo as u128 })
        }
        None => None,
    }
}

/// Relies on `ethnum::I256::checked_mul`: 256-bit signed multiplication,
/// `None` exactly on overflow.
#[verifier::external_body]
pub(crate) fn i256_checked_mul(a: Wide, b: Wide) -> (r: Option<Wide>)
    ensures
        r is Some <==> in_i256(w_val(a) * w_val(b)),
        (r matches Some(w) ==> w_val(w) == w_val(a) * w_val(b)),
{
    let x = ethnum::I256::from_words(a.hi, a.lo as i128);
    let y = ethnum::I256::from_words(b.hi, b.lo as i128);
    match x.checked_mul(y) {
        Some(z) => {
            let (hi, lo) = z.into_words();
            Some(Wide { hi, lo: lo as u128 })
        }
        None => None,
    }
}

/// Relies on `ethnum::I256::checked_div`: truncating 256-bit division.
/// A positive divisor can neither be zero nor trigger the `MIN / -1` case.
#[verifier::external_body]
pub(crate) fn i256_div(a: Wide, b: Wide) -> (r: Wide)
    requires
        w_val(b) > 0,
    ensures
        w_val(r) == trunc_div(w_val(a), w_val(b)),
{
    let x = ethnum::I256::from_words(a.hi, a.lo as i128);
    let y = ethnum::I256::from_words(b.hi, b.lo as i128);
    let (hi, lo) = x.checked_div(y).unwrap().into_words();
    Wide { hi, lo: lo as u128 }
}

/// Relies on `ethnum::I256::checked_rem`: remainder of the truncating
/// division, with the dividend's sign.
#[verifier::external_body]
pub(crate) fn i256_rem(a: Wide, b: Wide) -> (r: Wide)
    requires
        w_val(b) > 0,
    ensures
        w_val(r) == trunc_rem(w_val(a), w_val(b)),
{
    let x = ethnum::I256::from_words(a.hi, a.lo as i128);
    let y = ethnum::I256::from_words(b.hi, b.lo as i128);
    let (hi, lo) = x.checked_rem(y).unwrap().into_words();
    Wide { hi, lo: lo as u128 }
}

/// Relies on `ethnum::I256::new`: widening conversion from `i128`.
#[verifier::external_body]
pub(crate) fn wide_from_i128(v: i128) -> (r: Wide)
    ensures
        w_val(r) == v,
{
    let (hi, lo) = ethnum::I256::new(v).into_words();
    Wide { hi, lo: lo as u128 }
}

/// Relies on `i128::try_from` for `ethnum::I256`: narrowing conversion,
/// `Err` exactly when the value does not fit.
#[verifier::external_body]
pub(crate) fn wide_to_i128(w: Wide) -> (r: Option<i128>)
    ensures
        r is Some <==> in_i128(w_val(w)),
        (r matches Some(v) ==> v == w_val(w)),
{
    let x = ethnum::I256::from_words(w.hi, w.lo as i128);
    match i128::try_from(x) {
        Ok(v) => Some(v),
        Err(_) => None,
    }
}

/// The zero value.
pub(crate) fn wide_zero() -> (r: Wide)
    ensures
        w_val(r) == 0,
{
    Wide { hi: 0, lo: 0 }
}

/// The sign of a pair is carried by its high word.
pub proof fn lemma_sign_from_hi(w: Wide)
    ensures
        w.hi >= 0 <==> w_val(w) >= 0,
        w_val(w) == 0 <==> w.hi == 0 && w.lo == 0,
{
    if w.hi >= 0 {
        assert(w.hi * word() >= 0) by (nonlinear_arith)
            requires w.hi >= 0;
    } else {
        assert(w.hi * word() <= -1 * word()) by (nonlinear_arith)
            requires w.hi <= -1;
    }
    if w.hi > 0 {
        assert(w.hi * word() >= 1 * word()) by (nonlinear_arith)
            requires w.hi >= 1;
    }
}

/// Whether the value is at least zero.
pub(crate) fn wide_is_nonneg(w: &Wide) -> (r: bool)
    ensures
        r == (w_val(*w) >= 0),
{
    proof { lemma_sign_from_hi(*w); }
    w.hi >= 0
}

/// Whether the value is exactly zero.
pub(crate) fn wide_is_zero(w: &Wide) -> (r: bool)
    ensures
        r == (w_val(*w) == 0),
{
    proof { lemma_sign_from_hi(*w); }
    w.hi == 0 && w.lo == 0
}

/// Lexicographic comparison of the word pairs decides the value order.
proof fn lemma_cmp(a: Wide, b: Wide)
    ensures
        (w_val(a) < w_val(b)) == (a.hi < b.hi || (a.hi == b.hi && a.lo < b.lo)),
{
    if a.hi < b.hi {
        assert(a.hi * word() + word() <= b.hi * word()) by (nonlinear_arith)
            requires a.hi + 1 <= b.hi;
    }
    if a.hi > b.hi {
        assert(b.hi * word() + word() <= a.hi * word()) by (nonlinear_arith)
            requires b.hi + 1 <= a.hi;
    }
}

/// Whether `a < b` as mathematical values.
pub(crate) fn wide_lt(a: &Wide, b: &Wide) -> (r: bool)
    ensures
        r == (w_val(*a) < w_val(*b)),
{
    proof { lemma_cmp(*a, *b); }
    a.hi < b.hi || (a.hi == b.hi && a.lo < b.lo)
}

/// Whether `a <= b` as mathematical values.
pub(crate) fn wide_le(a: &Wide, b: &Wide) -> (r: bool)
    ensures
        r == (w_val(*a) <= w_val(*b)),
{
    proof { lemma_cmp(*b, *a); }
    a.hi < b.hi || (a.hi == b.hi && a.lo <= b.lo)
}

/// Floor division by a positive divisor, built on the truncating host
/// division; total, since the quotient always fits.
pub(crate) fn wide_div_floor(n: Wide, d: Wide) -> (r: Wide)
    requires
        w_val(d) > 0,
    ensures
        w_val(r) == w_val(n) / w_val(d),
{
    let q = i256_div(n, d);
    if wide_is_nonneg(&n) {
        q
    } else {
        let rem = i256_rem(n, d);
        proof { lemma_trunc_of_negative(w_val(n), w_val(d)); }
        if wide_is_zero(&rem) {
            q
        } else {
            proof {
                lemma_w_val_in_range(n);
                lemma_fundamental_div_mod_converse(-w_val(n), 1, -w_val(n), 0);
                lemma_quotient_bound(-w_val(n), w_val(d));
            }
            let one = wide_from_i128(1);
            match i256_checked_sub(q, one) {
                Some(v) => v,
                None => {
                    proof { assert(false); }
                    q
                }
            }
        }
    }
}

/// Ceiling division by a positive divisor; total, since the quotient
/// always fits.
pub(crate) fn wide_div_ceil(n: Wide, d: Wide) -> (r: Wide)
    requires
        w_val(d) > 0,
    ensures
        w_val(r) == ceil_div(w_val(n), w_val(d)),
{
    let q = i256_div(n, d);
    if !wide_is_nonneg(&n) {
        proof { lemma_trunc_of_negative(w_val(n), w_val(d)); }
        q
    } else if wide_is_zero(&n) {
        q
    } else {
        let rem = i256_rem(n, d);
        proof { lemma_trunc_of_negative(-w_val(n), w_val(d)); }
        if wide_is_zero(&rem) {
            q
        } else {
            proof {
                lemma_w_val_in_range(n);
                lemma_fundamental_div_mod_converse(w_val(n), 1, w_val(n), 0);
                lemma_quotient_bound(w_val(n), w_val(d));
            }
            let one = wide_from_i128(1);
            match i256_checked_add(q, one) {
                Some(v) => v,
                None => {
                    proof { assert(false); }
                    q
                }
            }
        }
    }
}

} // verus!
