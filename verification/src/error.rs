//! The ways a parse can fail.
use vstd::prelude::*;

verus! {

/// Why an input could not be read as an integer. The slice that each
/// variant carries is the part of the input that held the digits (after a
/// sign byte, where there was one).
#[derive(Debug, Clone, Copy, PartialEq, Eq)]
pub enum AtoiSimdError<'a> {
    /// There was no digit where the number should start (or no input).
    Empty,
    /// The digit run is too long: its length, and the digits' slice.
    Size(usize, &'a [u8]),
    /// The number does not fit the requested type.
    Overflow(&'a [u8]),
    /// A byte that is not a digit follows the number: the magnitude read
    /// before it, its position, and the digits' slice (types up to 64 bits).
    Invalid64(u64, usize, &'a [u8]),
    /// As `Invalid64`, for the 128-bit types.
    Invalid128(u128, usize, &'a [u8]),
}

/// The meaning of an `AtoiSimdError`, with its slice as a sequence of bytes.
/// `Invalid` holds the magnitude, the position, the slice, and whether the
/// 128-bit form was used.
pub enum SpecError {
    Empty,
    Size(nat, Seq<u8>),
    Overflow(Seq<u8>),
    Invalid(int, nat, Seq<u8>, bool),
}

impl<'a> View for AtoiSimdError<'a> {
    type V = SpecError;

    open spec fn view(&self) -> SpecError {
        match *self {
            AtoiSimdError::Empty => SpecError::Empty,
            AtoiSimdError::Size(n, t) => SpecError::Size(n as nat, t@),
            AtoiSimdError::Overflow(t) => SpecError::Overflow(t@),
            AtoiSimdError::Invalid64(v, n, t) => SpecError::Invalid(v as int, n as nat, t@, false),
            AtoiSimdError::Invalid128(v, n, t) => SpecError::Invalid(v as int, n as nat, t@, true),
        }
    }
}

} // verus!
