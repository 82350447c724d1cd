use vstd::prelude::*;

verus! {

/// Errors reported by the arithmetic of this library.
#[derive(Debug, Clone, Copy, PartialEq, Eq, Structural)]
pub enum FendError {
    /// A complex number with a non-zero imaginary part was used as an integer.
    ComplexToInteger,
    /// The factorial of a complex number with a non-zero imaginary part was requested.
    FactorialComplex,
    /// A real number was expected, but the value has a non-zero imaginary part.
    ExpectedARealNumber,
    /// Division by zero.
    DivideByZero,
    /// A result does not fit in the fixed-width representation of a rational.
    OutOfRange,
    /// An integer was expected, but the value has a fractional part.
    ExpectedAnInteger,
    /// A non-negative number was expected.
    NegativeNumbersNotAllowed,
    /// The value does not fit in a `usize`.
    TooLargeForUsize,
    /// A byte sequence does not encode a value of this library.
    DeserializationError,
    /// A base outside 2 to 36 was requested.
    InvalidBase,
    /// Reading or writing the bytes of a number failed.
    Io,
}

} // verus!
