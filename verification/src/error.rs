use vstd::prelude::*;

verus! {

/// The failures the library reports.  Every failure is deterministic and
/// caused by caller input or missing session state; none is retryable.
#[derive(Clone, Copy, Debug, PartialEq, Eq, Structural)]
pub enum SssError {
    /// A threshold below two would let a single share recover the secret.
    ThresholdTooLow,
    /// The threshold exceeds the number of shares to generate.
    ThresholdTooHigh,
    /// Fewer shares were supplied than the threshold requires.
    InsufficientShares,
    /// A field-mode operation was asked for without a modulus.
    ModulusNotSet,
    /// Exact reconstruction did not yield an integer: the points do not all
    /// lie on one polynomial.
    InconsistentShares,
    /// A character of the text is not in the alphabet.
    InvalidSymbol,
    /// An empty numeral string was given where a value is needed.
    EmptyInput,
    /// A negative value cannot be rendered as a numeral.
    NegativeValue,
    /// A character's digit value is not below the base.
    DigitOutOfRange,
    /// A share string does not have the serializer's layout.
    MalformedShare,
    /// A denominator of zero was about to be formed.
    DivisionByZero,
}

} // verus!
