use vstd::prelude::*;

verus! {

/// Every failure a pool operation can signal. All errors are fatal to the
/// enclosing operation: nothing is partially applied.
#[derive(Clone, Copy, Debug, PartialEq, Eq, Structural)]
pub enum Error {
    /// A signed input was negative where a nonnegative value was expected.
    ErrNegative,
    /// A fixed-point descale produced a value that does not fit in 128 bits.
    ErrMathApprox,
    /// An addition left the representable range.
    ErrAddOverflow,
    /// A subtraction would have produced a value below the allowed range.
    ErrSubUnderflow,
    /// A division was attempted with an empty denominator.
    ErrDivInternal,
    /// A multiplication left the 256-bit range.
    ErrMulOverflow,
    /// The base handed to the fractional power is below its minimum.
    ErrCPowBaseTooLow,
    /// The base handed to the fractional power is above its maximum.
    ErrCPowBaseTooHigh,
    /// A signed input was zero or negative where a positive value was expected.
    ErrNegativeOrZero,
    /// A liquidity batch held no action.
    ErrEmptyBatch,
    /// The input token of a swap is neither pool token.
    ErrUnknownToken,
    /// A swap produced less than the requested minimum output.
    ErrInsufficientOutput,
    /// A swap walked past every stored window without being filled.
    ErrInsufficientLiquidity,
}

} // verus!
