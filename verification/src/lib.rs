//! Parsing integers from byte slices of ASCII digits, with validation.
//!
//! Every supported type (`u8`, `i8`, `u16`, `i16`, `u32`, `i32`, `u64`,
//! `i64`, `u128`, `i128`, `usize`, `isize`) can be read from the whole of a
//! slice (`parse`), or from the digits at its start (`parse_prefix`), with
//! the sign (`parse`), as a non-negative value (`parse_pos`) or as a negative
//! one written without its `'-'` (`parse_neg`). `parse_skipped` also accepts
//! a leading `'+'` and any number of leading zeroes. Anything else in the
//! input is reported as an `AtoiSimdError`: no digit where the number starts
//! (`Empty`), a run of more digits than the type reads (`Size`: more than 20
//! for `u64`, 19 for `i64`, 39 for `u128` and `i128`, leading zeroes left
//! out when they are skipped; the narrower types read runs of any length), a
//! number out of the type's range (`Overflow`), or a byte that is not a digit
//! after the number (`Invalid64`, `Invalid128`).
//!
//! Digits are read eight bytes at a time with word arithmetic (module
//! `fallback`); every function states its result over the model in module
//! `digits`, and module `laws` proves how the reads relate.
use vstd::prelude::*;

pub mod digits;
pub mod error;
pub mod fallback;
pub mod laws;
pub mod linker;
pub mod magnitude;

pub use crate::error::AtoiSimdError;
pub use crate::linker::{IntBounds, Parse, ParseNeg, ParsePos};
pub use crate::magnitude::{parse_simd_checked_u128, parse_simd_u128};

use crate::digits::{negated, negated_value, spec_checked, spec_prefix};
use crate::linker::{prefix_result, spec_parse, spec_parse_prefix, value_result};

verus! {

/// Parses a slice of digits, and checks for the first '-' char for signed integers.
pub fn parse<T: Parse>(s: &[u8]) -> (r: Result<T, AtoiSimdError<'_>>)
    ensures
        value_result::<T>(r) == spec_parse::<T>(s@, false, false),
{
    T::atoi_simd_parse::<false, false>(s)
}

/// Parses a positive integer.
pub fn parse_pos<T: Parse>(s: &[u8]) -> (r: Result<T, AtoiSimdError<'_>>)
    ensures
        value_result::<T>(r) == spec_checked(s@, T::spec_max(), T::spec_run_limit(), false, T::spec_wide()),
{
    T::atoi_simd_parse_pos::<false>(s)
}

/// Parses a negative integer. Slice must not contain '-' sign.
pub fn parse_neg<T: ParseNeg>(s: &[u8]) -> (r: Result<T, AtoiSimdError<'_>>)
    ensures
        value_result::<T>(r) == negated(
            spec_checked(s@, T::spec_min_mag(), T::spec_run_limit(), false, T::spec_wide()),
        ),
{
    T::atoi_simd_parse_neg::<false>(s)
}

/// Parses a slice of digits until it reaches an invalid character,
/// and checks for the first '-' char for signed integers.
/// Returns the parsed value and the parsed size of the slice.
pub fn parse_prefix<T: Parse>(s: &[u8]) -> (r: Result<(T, usize), AtoiSimdError<'_>>)
    ensures
        prefix_result::<T>(r) == spec_parse_prefix::<T>(s@, false, false),
{
    T::atoi_simd_parse_prefix::<false, false>(s)
}

/// Parses a positive integer until it reaches an invalid character.
/// Returns the parsed value and the parsed size of the slice.
pub fn parse_prefix_pos<T: Parse>(s: &[u8]) -> (r: Result<(T, usize), AtoiSimdError<'_>>)
    ensures
        prefix_result::<T>(r) == spec_prefix(s@, T::spec_max(), T::spec_run_limit(), false),
{
    T::atoi_simd_parse_prefix_pos::<false>(s)
}

/// Parses a negative integer until it reaches an invalid character. Slice must not contain '-' sign.
/// Returns the parsed value and the parsed size of the slice.
pub fn parse_prefix_neg<T: ParseNeg>(s: &[u8]) -> (r: Result<(T, usize), AtoiSimdError<'_>>)
    ensures
        prefix_result::<T>(r) == negated_value(spec_prefix(s@, T::spec_min_mag(), T::spec_run_limit(), false)),
{
    T::atoi_simd_parse_prefix_neg::<false>(s)
}

/// Parses a slice of digits. Has been made to be used as a drop-in replacement for `str::parse`.
/// Checks for the first '-' char for signed integers.
/// Skips the '+' char and extra zeroes at the beginning.
/// It's slower than `parse()`.
pub fn parse_skipped<T: Parse>(s: &[u8]) -> (r: Result<T, AtoiSimdError<'_>>)
    ensures
        value_result::<T>(r) == spec_parse::<T>(s@, true, true),
{
    T::atoi_simd_parse::<true, true>(s)
}

/// The same as `parse_prefix`, under its former name; use `parse_prefix`.
pub fn parse_any<T: Parse>(s: &[u8]) -> (r: Result<(T, usize), AtoiSimdError<'_>>)
    ensures
        prefix_result::<T>(r) == spec_parse_prefix::<T>(s@, false, false),
{
    parse_prefix(s)
}

/// The same as `parse_prefix_pos`, under its former name; use `parse_prefix_pos`.
pub fn parse_any_pos<T: Parse>(s: &[u8]) -> (r: Result<(T, usize), AtoiSimdError<'_>>)
    ensures
        prefix_result::<T>(r) == spec_prefix(s@, T::spec_max(), T::spec_run_limit(), false),
{
    parse_prefix_pos(s)
}

/// The same as `parse_prefix_neg`, under its former name; use `parse_prefix_neg`.
pub fn parse_any_neg<T: ParseNeg>(s: &[u8]) -> (r: Result<(T, usize), AtoiSimdError<'_>>)
    ensures
        prefix_result::<T>(r) == negated_value(spec_prefix(s@, T::spec_min_mag(), T::spec_run_limit(), false)),
{
    parse_prefix_neg(s)
}

} // verus!
