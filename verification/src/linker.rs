//! The traits that tie each integer type to the magnitude readers, and the
//! sign handling shared by the signed types.
use vstd::prelude::*;
use crate::digits::{
    lemma_digit_run_bounds, lemma_pow10_limits, negated, negated_value, spec_checked,
    spec_parse_full, spec_parse_prefix_full, spec_prefix, RunLimit,
};
use crate::error::{AtoiSimdError, SpecError};
use crate::magnitude::{
    parse_simd, parse_simd_checked, parse_simd_checked_i128, parse_simd_checked_i128_neg,
    parse_simd_checked_neg, parse_simd_checked_u128, parse_simd_i128, parse_simd_i128_neg,
    parse_simd_neg, parse_simd_u128,
};

verus! {

/// What the parsers need to know of an integer type: the integer each value
/// stands for, the range of the type, and how a stray byte is reported.
pub trait IntBounds: Sized {
    /// The integer that `v` stands for.
    spec fn spec_int(v: Self) -> int;

    /// The largest value of the type.
    spec fn spec_max() -> int;

    /// The magnitude of the smallest value of the type (zero when unsigned).
    spec fn spec_min_mag() -> int;

    /// Whether a leading `'-'` starts a negative value.
    spec fn spec_signed() -> bool;

    /// Whether a stray byte is reported with the 128-bit error.
    spec fn spec_wide() -> bool;

    /// How long a digit run the type reads before it is refused as too long.
    spec fn spec_run_limit() -> RunLimit;

    /// Both bounds fit in 128 bits, negative values exist only in a signed
    /// type, the digits of both bounds are within the type's run limit, and
    /// the limit admits runs of fifteen digits.
    proof fn lemma_bounds()
        ensures
            0 <= Self::spec_max() <= u128::MAX,
            0 <= Self::spec_min_mag() <= u128::MAX,
            Self::spec_min_mag() > 0 ==> Self::spec_signed(),
            Self::spec_run_limit().covers(Self::spec_max()),
            Self::spec_run_limit().covers(Self::spec_min_mag()),
            Self::spec_run_limit().admits(15),
    ;

    /// Every value lies in `-spec_min_mag()..=spec_max()`.
    proof fn lemma_range(v: Self)
        ensures
            -Self::spec_min_mag() <= Self::spec_int(v) <= Self::spec_max(),
    ;
}

/// What a call that reads one value returned, with the value as an integer
/// and the error by its meaning.
pub open spec fn value_result<T: IntBounds>(r: Result<T, AtoiSimdError>) -> Result<int, SpecError> {
    match r {
        Ok(v) => Ok(T::spec_int(v)),
        Err(e) => Err(e@),
    }
}

/// What a call that reads a value and its length returned, with the value as
/// an integer and the error by its meaning.
pub open spec fn prefix_result<T: IntBounds>(r: Result<(T, usize), AtoiSimdError>) -> Result<
    (int, nat),
    SpecError,
> {
    match r {
        Ok((v, n)) => Ok((T::spec_int(v), n as nat)),
        Err(e) => Err(e@),
    }
}

/// Reading all of `s` as a value of `T`, with the sign rules of
/// `spec_parse_full`.
pub open spec fn spec_parse<T: IntBounds>(s: Seq<u8>, skip_zeroes: bool, skip_plus: bool) -> Result<
    int,
    SpecError,
> {
    spec_parse_full(
        s,
        T::spec_max(),
        T::spec_min_mag(),
        T::spec_run_limit(),
        T::spec_signed(),
        T::spec_wide(),
        skip_zeroes,
        skip_plus,
    )
}

/// Reading a value of `T` from the start of `s`, with the sign rules of
/// `spec_parse_prefix_full`.
pub open spec fn spec_parse_prefix<T: IntBounds>(
    s: Seq<u8>,
    skip_zeroes: bool,
    skip_plus: bool,
) -> Result<(int, nat), SpecError> {
    spec_parse_prefix_full(
        s,
        T::spec_max(),
        T::spec_min_mag(),
        T::spec_run_limit(),
        T::spec_signed(),
        skip_zeroes,
        skip_plus,
    )
}

/// Reading non-negative values of a type.
pub trait ParsePos: IntBounds {
    /// Reads all of `s` as a non-negative value.
    fn atoi_simd_parse_pos<const SKIP_ZEROES: bool>(s: &[u8]) -> (r: Result<Self, AtoiSimdError<'_>>)
        ensures
            value_result::<Self>(r) == spec_checked(
                s@,
                Self::spec_max(),
                Self::spec_run_limit(),
                SKIP_ZEROES,
                Self::spec_wide(),
            ),
    ;

    /// Reads a non-negative value from the digits at the start of `s`, and
    /// returns it with the number of digits read.
    fn atoi_simd_parse_prefix_pos<const SKIP_ZEROES: bool>(s: &[u8]) -> (r: Result<
        (Self, usize),
        AtoiSimdError<'_>,
    >)
        ensures
            prefix_result::<Self>(r) == spec_prefix(s@, Self::spec_max(), Self::spec_run_limit(), SKIP_ZEROES),
    ;
}

/// Reading negative values of a type, from the digits without their `'-'`.
pub trait ParseNeg: IntBounds {
    /// Reads all of `s` as the magnitude of a value at most zero.
    fn atoi_simd_parse_neg<const SKIP_ZEROES: bool>(s: &[u8]) -> (r: Result<Self, AtoiSimdError<'_>>)
        ensures
            value_result::<Self>(r) == negated(
                spec_checked(
                    s@,
                    Self::spec_min_mag(),
                    Self::spec_run_limit(),
                    SKIP_ZEROES,
                    Self::spec_wide(),
                ),
            ),
    ;

    /// Reads the magnitude of a value at most zero from the digits at the
    /// start of `s`, and returns the value with the number of digits read.
    fn atoi_simd_parse_prefix_neg<const SKIP_ZEROES: bool>(s: &[u8]) -> (r: Result<
        (Self, usize),
        AtoiSimdError<'_>,
    >)
        ensures
            prefix_result::<Self>(r) == negated_value(
                spec_prefix(s@, Self::spec_min_mag(), Self::spec_run_limit(), SKIP_ZEROES),
            ),
    ;
}

/// Reading values of a type with their sign.
pub trait Parse: ParsePos {
    /// Reads all of `s` as a value: a `'-'` first reads a negative value for
    /// the signed types, and with `SKIP_PLUS` a `'+'` first is dropped.
    fn atoi_simd_parse<const SKIP_ZEROES: bool, const SKIP_PLUS: bool>(s: &[u8]) -> (r: Result<
        Self,
        AtoiSimdError<'_>,
    >)
        ensures
            value_result::<Self>(r) == spec_parse_full(
                s@,
                Self::spec_max(),
                Self::spec_min_mag(),
                Self::spec_run_limit(),
                Self::spec_signed(),
                Self::spec_wide(),
                SKIP_ZEROES,
                SKIP_PLUS,
            ),
    ;

    /// Reads a value, with its sign, from the start of `s`, and returns it
    /// with the number of bytes read (the sign included).
    fn atoi_simd_parse_prefix<const SKIP_ZEROES: bool, const SKIP_PLUS: bool>(s: &[u8]) -> (r:
        Result<(Self, usize), AtoiSimdError<'_>>)
        ensures
            prefix_result::<Self>(r) == spec_parse_prefix_full(
                s@,
                Self::spec_max(),
                Self::spec_min_mag(),
                Self::spec_run_limit(),
                Self::spec_signed(),
                SKIP_ZEROES,
                SKIP_PLUS,
            ),
    ;
}

/// Reads all of `s` as a value of an unsigned type, dropping a leading `'+'`
/// with `SKIP_PLUS`.
pub fn atoi_simd_parse_unsigned<T: ParsePos, const SKIP_ZEROES: bool, const SKIP_PLUS: bool>(
    s: &[u8],
) -> (r: Result<T, AtoiSimdError<'_>>)
    ensures
        value_result::<T>(r) == spec_parse_full(
            s@,
            T::spec_max(),
            0,
            T::spec_run_limit(),
            false,
            T::spec_wide(),
            SKIP_ZEROES,
            SKIP_PLUS,
        ),
{
    if SKIP_PLUS {
        if s.len() == 0 {
            return Err(AtoiSimdError::Empty);
        }
        if s[0] == 43u8 {
            let (_, rest) = s.split_at(1);
            assert(rest@ =~= s@.drop_first());
            return T::atoi_simd_parse_pos::<SKIP_ZEROES>(rest);
        }
    }
    T::atoi_simd_parse_pos::<SKIP_ZEROES>(s)
}

/// Reads a value of an unsigned type from the start of `s`, dropping (and
/// counting) a leading `'+'` with `SKIP_PLUS`.
pub fn atoi_simd_parse_prefix_unsigned<
    T: ParsePos,
    const SKIP_ZEROES: bool,
    const SKIP_PLUS: bool,
>(s: &[u8]) -> (r: Result<(T, usize), AtoiSimdError<'_>>)
    ensures
        prefix_result::<T>(r) == spec_parse_prefix_full(
            s@,
            T::spec_max(),
            0,
            T::spec_run_limit(),
            false,
            SKIP_ZEROES,
            SKIP_PLUS,
        ),
{
    if SKIP_PLUS {
        if s.len() == 0 {
            return Err(AtoiSimdError::Empty);
        }
        if s[0] == 43u8 {
            let (_, rest) = s.split_at(1);
            assert(rest@ =~= s@.drop_first());
            proof {
                lemma_digit_run_bounds(rest@);
            }
            return match T::atoi_simd_parse_prefix_pos::<SKIP_ZEROES>(rest) {
                Ok((v, n)) => Ok((v, n + 1)),
                Err(e) => Err(e),
            };
        }
    }
    T::atoi_simd_parse_prefix_pos::<SKIP_ZEROES>(s)
}

/// Reads all of `s` as a value of a signed type: a leading `'-'` reads a
/// negative value, and with `SKIP_PLUS` a leading `'+'` is dropped.
pub fn atoi_simd_parse_signed<T: ParsePos + ParseNeg, const SKIP_ZEROES: bool, const SKIP_PLUS: bool>(
    s: &[u8],
) -> (r: Result<T, AtoiSimdError<'_>>)
    ensures
        value_result::<T>(r) == spec_parse_full(
            s@,
            T::spec_max(),
            T::spec_min_mag(),
            T::spec_run_limit(),
            true,
            T::spec_wide(),
            SKIP_ZEROES,
            SKIP_PLUS,
        ),
{
    if s.len() == 0 {
        return Err(AtoiSimdError::Empty);
    }
    let first = s[0];
    if SKIP_PLUS && first == 43u8 {
        let (_, rest) = s.split_at(1);
        assert(rest@ =~= s@.drop_first());
        T::atoi_simd_parse_pos::<SKIP_ZEROES>(rest)
    } else if first == 45u8 {
        let (_, rest) = s.split_at(1);
        assert(rest@ =~= s@.drop_first());
        T::atoi_simd_parse_neg::<SKIP_ZEROES>(rest)
    } else {
        T::atoi_simd_parse_pos::<SKIP_ZEROES>(s)
    }
}

/// Reads a value of a signed type, with its sign, from the start of `s`; the
/// returned length counts the sign byte.
pub fn atoi_simd_parse_prefix_signed<
    T: ParsePos + ParseNeg,
    const SKIP_ZEROES: bool,
    const SKIP_PLUS: bool,
>(s: &[u8]) -> (r: Result<(T, usize), AtoiSimdError<'_>>)
    ensures
        prefix_result::<T>(r) == spec_parse_prefix_full(
            s@,
            T::spec_max(),
            T::spec_min_mag(),
            T::spec_run_limit(),
            true,
            SKIP_ZEROES,
            SKIP_PLUS,
        ),
{
    if s.len() == 0 {
        return Err(AtoiSimdError::Empty);
    }
    let first = s[0];
    if SKIP_PLUS && first == 43u8 {
        let (_, rest) = s.split_at(1);
        assert(rest@ =~= s@.drop_first());
        proof {
            lemma_digit_run_bounds(rest@);
        }
        match T::atoi_simd_parse_prefix_pos::<SKIP_ZEROES>(rest) {
            Ok((v, n)) => Ok((v, n + 1)),
            Err(e) => Err(e),
        }
    } else if first == 45u8 {
        let (_, rest) = s.split_at(1);
        assert(rest@ =~= s@.drop_first());
        proof {
            lemma_digit_run_bounds(rest@);
        }
        match T::atoi_simd_parse_prefix_neg::<SKIP_ZEROES>(rest) {
            Ok((v, n)) => Ok((v, n + 1)),
            Err(e) => Err(e),
        }
    } else {
        T::atoi_simd_parse_prefix_pos::<SKIP_ZEROES>(s)
    }
}

impl IntBounds for u8 {
    open spec fn spec_int(v: u8) -> int {
        v as int
    }

    open spec fn spec_max() -> int {
        u8::MAX as int
    }

    open spec fn spec_min_mag() -> int {
        0
    }

    open spec fn spec_signed() -> bool {
        false
    }

    open spec fn spec_wide() -> bool {
        false
    }

    open spec fn spec_run_limit() -> RunLimit {
        RunLimit::Unlimited
    }

    proof fn lemma_bounds() {}

    proof fn lemma_range(v: u8) {}
}

impl ParsePos for u8 {
    fn atoi_simd_parse_pos<const SKIP_ZEROES: bool>(s: &[u8]) -> (r: Result<u8, AtoiSimdError<'_>>) {
        let limit = RunLimit::Unlimited;
        match parse_simd_checked::<SKIP_ZEROES>(s, u8::MAX as u64, limit) {
            Ok(v) => Ok(v as u8),
            Err(e) => Err(e),
        }
    }

    fn atoi_simd_parse_prefix_pos<const SKIP_ZEROES: bool>(s: &[u8]) -> (r: Result<
        (u8, usize),
        AtoiSimdError<'_>,
    >) {
        let limit = RunLimit::Unlimited;
        match parse_simd::<SKIP_ZEROES>(s, u8::MAX as u64, limit) {
            Ok((v, n)) => Ok((v as u8, n)),
            Err(e) => Err(e),
        }
    }
}

impl Parse for u8 {
    fn atoi_simd_parse<const SKIP_ZEROES: bool, const SKIP_PLUS: bool>(s: &[u8]) -> (r: Result<
        u8,
        AtoiSimdError<'_>,
    >) {
        atoi_simd_parse_unsigned::<u8, SKIP_ZEROES, SKIP_PLUS>(s)
    }

    fn atoi_simd_parse_prefix<const SKIP_ZEROES: bool, const SKIP_PLUS: bool>(s: &[u8]) -> (r:
        Result<(u8, usize), AtoiSimdError<'_>>) {
        atoi_simd_parse_prefix_unsigned::<u8, SKIP_ZEROES, SKIP_PLUS>(s)
    }
}

impl IntBounds for u16 {
    open spec fn spec_int(v: u16) -> int {
        v as int
    }

    open spec fn spec_max() -> int {
        u16::MAX as int
    }

    open spec fn spec_min_mag() -> int {
        0
    }

    open spec fn spec_signed() -> bool {
        false
    }

    open spec fn spec_wide() -> bool {
        false
    }

    open spec fn spec_run_limit() -> RunLimit {
        RunLimit::Unlimited
    }

    proof fn lemma_bounds() {}

    proof fn lemma_range(v: u16) {}
}

impl ParsePos for u16 {
    fn atoi_simd_parse_pos<const SKIP_ZEROES: bool>(s: &[u8]) -> (r: Result<u16, AtoiSimdError<'_>>) {
        let limit = RunLimit::Unlimited;
        match parse_simd_checked::<SKIP_ZEROES>(s, u16::MAX as u64, limit) {
            Ok(v) => Ok(v as u16),
            Err(e) => Err(e),
        }
    }

    fn atoi_simd_parse_prefix_pos<const SKIP_ZEROES: bool>(s: &[u8]) -> (r: Result<
        (u16, usize),
        AtoiSimdError<'_>,
    >) {
        let limit = RunLimit::Unlimited;
        match parse_simd::<SKIP_ZEROES>(s, u16::MAX as u64, limit) {
            Ok((v, n)) => Ok((v as u16, n)),
            Err(e) => Err(e),
        }
    }
}

impl Parse for u16 {
    fn atoi_simd_parse<const SKIP_ZEROES: bool, const SKIP_PLUS: bool>(s: &[u8]) -> (r: Result<
        u16,
        AtoiSimdError<'_>,
    >) {
        atoi_simd_parse_unsigned::<u16, SKIP_ZEROES, SKIP_PLUS>(s)
    }

    fn atoi_simd_parse_prefix<const SKIP_ZEROES: bool, const SKIP_PLUS: bool>(s: &[u8]) -> (r:
        Result<(u16, usize), AtoiSimdError<'_>>) {
        atoi_simd_parse_prefix_unsigned::<u16, SKIP_ZEROES, SKIP_PLUS>(s)
    }
}

impl IntBounds for u32 {
    open spec fn spec_int(v: u32) -> int {
        v as int
    }

    open spec fn spec_max() -> int {
        u32::MAX as int
    }

    open spec fn spec_min_mag() -> int {
        0
    }

    open spec fn spec_signed() -> bool {
        false
    }

    open spec fn spec_wide() -> bool {
        false
    }

    open spec fn spec_run_limit() -> RunLimit {
        RunLimit::Unlimited
    }

    proof fn lemma_bounds() {}

    proof fn lemma_range(v: u32) {}
}

impl ParsePos for u32 {
    fn atoi_simd_parse_pos<const SKIP_ZEROES: bool>(s: &[u8]) -> (r: Result<u32, AtoiSimdError<'_>>) {
        let limit = RunLimit::Unlimited;
        match parse_simd_checked::<SKIP_ZEROES>(s, u32::MAX as u64, limit) {
            Ok(v) => Ok(v as u32),
            Err(e) => Err(e),
        }
    }

    fn atoi_simd_parse_prefix_pos<const SKIP_ZEROES: bool>(s: &[u8]) -> (r: Result<
        (u32, usize),
        AtoiSimdError<'_>,
    >) {
        let limit = RunLimit::Unlimited;
        match parse_simd::<SKIP_ZEROES>(s, u32::MAX as u64, limit) {
            Ok((v, n)) => Ok((v as u32, n)),
            Err(e) => Err(e),
        }
    }
}

impl Parse for u32 {
    fn atoi_simd_parse<const SKIP_ZEROES: bool, const SKIP_PLUS: bool>(s: &[u8]) -> (r: Result<
        u32,
        AtoiSimdError<'_>,
    >) {
        atoi_simd_parse_unsigned::<u32, SKIP_ZEROES, SKIP_PLUS>(s)
    }

    fn atoi_simd_parse_prefix<const SKIP_ZEROES: bool, const SKIP_PLUS: bool>(s: &[u8]) -> (r:
        Result<(u32, usize), AtoiSimdError<'_>>) {
        atoi_simd_parse_prefix_unsigned::<u32, SKIP_ZEROES, SKIP_PLUS>(s)
    }
}

impl IntBounds for u64 {
    open spec fn spec_int(v: u64) -> int {
        v as int
    }

    open spec fn spec_max() -> int {
        u64::MAX as int
    }

    open spec fn spec_min_mag() -> int {
        0
    }

    open spec fn spec_signed() -> bool {
        false
    }

    open spec fn spec_wide() -> bool {
        false
    }

    open spec fn spec_run_limit() -> RunLimit {
        RunLimit::Digits { limit: 20, reported: 24 }
    }

    proof fn lemma_bounds() {
        lemma_pow10_limits();
    }

    proof fn lemma_range(v: u64) {}
}

impl ParsePos for u64 {
    fn atoi_simd_parse_pos<const SKIP_ZEROES: bool>(s: &[u8]) -> (r: Result<u64, AtoiSimdError<'_>>) {
        let limit = RunLimit::Digits { limit: 20, reported: 24 };
        match parse_simd_checked::<SKIP_ZEROES>(s, u64::MAX as u64, limit) {
            Ok(v) => Ok(v as u64),
            Err(e) => Err(e),
        }
    }

    fn atoi_simd_parse_prefix_pos<const SKIP_ZEROES: bool>(s: &[u8]) -> (r: Result<
        (u64, usize),
        AtoiSimdError<'_>,
    >) {
        let limit = RunLimit::Digits { limit: 20, reported: 24 };
        match parse_simd::<SKIP_ZEROES>(s, u64::MAX as u64, limit) {
            Ok((v, n)) => Ok((v as u64, n)),
            Err(e) => Err(e),
        }
    }
}

impl Parse for u64 {
    fn atoi_simd_parse<const SKIP_ZEROES: bool, const SKIP_PLUS: bool>(s: &[u8]) -> (r: Result<
        u64,
        AtoiSimdError<'_>,
    >) {
        atoi_simd_parse_unsigned::<u64, SKIP_ZEROES, SKIP_PLUS>(s)
    }

    fn atoi_simd_parse_prefix<const SKIP_ZEROES: bool, const SKIP_PLUS: bool>(s: &[u8]) -> (r:
        Result<(u64, usize), AtoiSimdError<'_>>) {
        atoi_simd_parse_prefix_unsigned::<u64, SKIP_ZEROES, SKIP_PLUS>(s)
    }
}

impl IntBounds for usize {
    open spec fn spec_int(v: usize) -> int {
        v as int
    }

    open spec fn spec_max() -> int {
        usize::MAX as int
    }

    open spec fn spec_min_mag() -> int {
        0
    }

    open spec fn spec_signed() -> bool {
        false
    }

    open spec fn spec_wide() -> bool {
        false
    }

    open spec fn spec_run_limit() -> RunLimit {
        if usize::MAX == u64::MAX {
            RunLimit::Digits { limit: 20, reported: 24 }
        } else {
            RunLimit::Unlimited
        }
    }

    proof fn lemma_bounds() {
        lemma_pow10_limits();
    }

    proof fn lemma_range(v: usize) {}
}

impl ParsePos for usize {
    fn atoi_simd_parse_pos<const SKIP_ZEROES: bool>(s: &[u8]) -> (r: Result<usize, AtoiSimdError<'_>>) {
        let limit = if usize::MAX as u64 == u64::MAX {
            RunLimit::Digits { limit: 20, reported: 24 }
        } else {
            RunLimit::Unlimited
        };
        match parse_simd_checked::<SKIP_ZEROES>(s, usize::MAX as u64, limit) {
            Ok(v) => Ok(v as usize),
            Err(e) => Err(e),
        }
    }

    fn atoi_simd_parse_prefix_pos<const SKIP_ZEROES: bool>(s: &[u8]) -> (r: Result<
        (usize, usize),
        AtoiSimdError<'_>,
    >) {
        let limit = if usize::MAX as u64 == u64::MAX {
            RunLimit::Digits { limit: 20, reported: 24 }
        } else {
            RunLimit::Unlimited
        };
        match parse_simd::<SKIP_ZEROES>(s, usize::MAX as u64, limit) {
            Ok((v, n)) => Ok((v as usize, n)),
            Err(e) => Err(e),
        }
    }
}

impl Parse for usize {
    fn atoi_simd_parse<const SKIP_ZEROES: bool, const SKIP_PLUS: bool>(s: &[u8]) -> (r: Result<
        usize,
        AtoiSimdError<'_>,
    >) {
        atoi_simd_parse_unsigned::<usize, SKIP_ZEROES, SKIP_PLUS>(s)
    }

    fn atoi_simd_parse_prefix<const SKIP_ZEROES: bool, const SKIP_PLUS: bool>(s: &[u8]) -> (r:
        Result<(usize, usize), AtoiSimdError<'_>>) {
        atoi_simd_parse_prefix_unsigned::<usize, SKIP_ZEROES, SKIP_PLUS>(s)
    }
}

impl IntBounds for u128 {
    open spec fn spec_int(v: u128) -> int {
        v as int
    }

    open spec fn spec_max() -> int {
        u128::MAX as int
    }

    open spec fn spec_min_mag() -> int {
        0
    }

    open spec fn spec_signed() -> bool {
        false
    }

    open spec fn spec_wide() -> bool {
        true
    }

    open spec fn spec_run_limit() -> RunLimit {
        RunLimit::Digits { limit: 39, reported: 40 }
    }

    proof fn lemma_bounds() {
        lemma_pow10_limits();
    }

    proof fn lemma_range(v: u128) {}
}

impl ParsePos for u128 {
    fn atoi_simd_parse_pos<const SKIP_ZEROES: bool>(s: &[u8]) -> (r: Result<u128, AtoiSimdError<'_>>) {
        parse_simd_checked_u128::<39, SKIP_ZEROES>(s)
    }

    fn atoi_simd_parse_prefix_pos<const SKIP_ZEROES: bool>(s: &[u8]) -> (r: Result<
        (u128, usize),
        AtoiSimdError<'_>,
    >) {
        parse_simd_u128::<39, SKIP_ZEROES>(s)
    }
}

impl Parse for u128 {
    fn atoi_simd_parse<const SKIP_ZEROES: bool, const SKIP_PLUS: bool>(s: &[u8]) -> (r: Result<
        u128,
        AtoiSimdError<'_>,
    >) {
        atoi_simd_parse_unsigned::<u128, SKIP_ZEROES, SKIP_PLUS>(s)
    }

    fn atoi_simd_parse_prefix<const SKIP_ZEROES: bool, const SKIP_PLUS: bool>(s: &[u8]) -> (r:
        Result<(u128, usize), AtoiSimdError<'_>>) {
        atoi_simd_parse_prefix_unsigned::<u128, SKIP_ZEROES, SKIP_PLUS>(s)
    }
}

impl IntBounds for i8 {
    open spec fn spec_int(v: i8) -> int {
        v as int
    }

    open spec fn spec_max() -> int {
        i8::MAX as int
    }

    open spec fn spec_min_mag() -> int {
        i8::MAX as int + 1
    }

    open spec fn spec_signed() -> bool {
        true
    }

    open spec fn spec_wide() -> bool {
        false
    }

    open spec fn spec_run_limit() -> RunLimit {
        RunLimit::Unlimited
    }

    proof fn lemma_bounds() {}

    proof fn lemma_range(v: i8) {}
}

impl ParsePos for i8 {
    fn atoi_simd_parse_pos<const SKIP_ZEROES: bool>(s: &[u8]) -> (r: Result<i8, AtoiSimdError<'_>>) {
        let limit = RunLimit::Unlimited;
        match parse_simd_checked::<SKIP_ZEROES>(s, i8::MAX as u64, limit) {
            Ok(v) => Ok(v as i8),
            Err(e) => Err(e),
        }
    }

    fn atoi_simd_parse_prefix_pos<const SKIP_ZEROES: bool>(s: &[u8]) -> (r: Result<
        (i8, usize),
        AtoiSimdError<'_>,
    >) {
        let limit = RunLimit::Unlimited;
        match parse_simd::<SKIP_ZEROES>(s, i8::MAX as u64, limit) {
            Ok((v, n)) => Ok((v as i8, n)),
            Err(e) => Err(e),
        }
    }
}

impl ParseNeg for i8 {
    fn atoi_simd_parse_neg<const SKIP_ZEROES: bool>(s: &[u8]) -> (r: Result<i8, AtoiSimdError<'_>>) {
        let limit = RunLimit::Unlimited;
        match parse_simd_checked_neg::<SKIP_ZEROES>(s, i8::MAX as u64 + 1, limit) {
            Ok(v) => Ok(v as i8),
            Err(e) => Err(e),
        }
    }

    fn atoi_simd_parse_prefix_neg<const SKIP_ZEROES: bool>(s: &[u8]) -> (r: Result<
        (i8, usize),
        AtoiSimdError<'_>,
    >) {
        let limit = RunLimit::Unlimited;
        match parse_simd_neg::<SKIP_ZEROES>(s, i8::MAX as u64 + 1, limit) {
            Ok((v, n)) => Ok((v as i8, n)),
            Err(e) => Err(e),
        }
    }
}

impl Parse for i8 {
    fn atoi_simd_parse<const SKIP_ZEROES: bool, const SKIP_PLUS: bool>(s: &[u8]) -> (r: Result<
        i8,
        AtoiSimdError<'_>,
    >) {
        atoi_simd_parse_signed::<i8, SKIP_ZEROES, SKIP_PLUS>(s)
    }

    fn atoi_simd_parse_prefix<const SKIP_ZEROES: bool, const SKIP_PLUS: bool>(s: &[u8]) -> (r:
        Result<(i8, usize), AtoiSimdError<'_>>) {
        atoi_simd_parse_prefix_signed::<i8, SKIP_ZEROES, SKIP_PLUS>(s)
    }
}

impl IntBounds for i16 {
    open spec fn spec_int(v: i16) -> int {
        v as int
    }

    open spec fn spec_max() -> int {
        i16::MAX as int
    }

    open spec fn spec_min_mag() -> int {
        i16::MAX as int + 1
    }

    open spec fn spec_signed() -> bool {
        true
    }

    open spec fn spec_wide() -> bool {
        false
    }

    open spec fn spec_run_limit() -> RunLimit {
        RunLimit::Unlimited
    }

    proof fn lemma_bounds() {}

    proof fn lemma_range(v: i16) {}
}

impl ParsePos for i16 {
    fn atoi_simd_parse_pos<const SKIP_ZEROES: bool>(s: &[u8]) -> (r: Result<i16, AtoiSimdError<'_>>) {
        let limit = RunLimit::Unlimited;
        match parse_simd_checked::<SKIP_ZEROES>(s, i16::MAX as u64, limit) {
            Ok(v) => Ok(v as i16),
            Err(e) => Err(e),
        }
    }

    fn atoi_simd_parse_prefix_pos<const SKIP_ZEROES: bool>(s: &[u8]) -> (r: Result<
        (i16, usize),
        AtoiSimdError<'_>,
    >) {
        let limit = RunLimit::Unlimited;
        match parse_simd::<SKIP_ZEROES>(s, i16::MAX as u64, limit) {
            Ok((v, n)) => Ok((v as i16, n)),
            Err(e) => Err(e),
        }
    }
}

impl ParseNeg for i16 {
    fn atoi_simd_parse_neg<const SKIP_ZEROES: bool>(s: &[u8]) -> (r: Result<i16, AtoiSimdError<'_>>) {
        let limit = RunLimit::Unlimited;
        match parse_simd_checked_neg::<SKIP_ZEROES>(s, i16::MAX as u64 + 1, limit) {
            Ok(v) => Ok(v as i16),
            Err(e) => Err(e),
        }
    }

    fn atoi_simd_parse_prefix_neg<const SKIP_ZEROES: bool>(s: &[u8]) -> (r: Result<
        (i16, usize),
        AtoiSimdError<'_>,
    >) {
        let limit = RunLimit::Unlimited;
        match parse_simd_neg::<SKIP_ZEROES>(s, i16::MAX as u64 + 1, limit) {
            Ok((v, n)) => Ok((v as i16, n)),
            Err(e) => Err(e),
        }
    }
}

impl Parse for i16 {
    fn atoi_simd_parse<const SKIP_ZEROES: bool, const SKIP_PLUS: bool>(s: &[u8]) -> (r: Result<
        i16,
        AtoiSimdError<'_>,
    >) {
        atoi_simd_parse_signed::<i16, SKIP_ZEROES, SKIP_PLUS>(s)
    }

    fn atoi_simd_parse_prefix<const SKIP_ZEROES: bool, const SKIP_PLUS: bool>(s: &[u8]) -> (r:
        Result<(i16, usize), AtoiSimdError<'_>>) {
        atoi_simd_parse_prefix_signed::<i16, SKIP_ZEROES, SKIP_PLUS>(s)
    }
}

impl IntBounds for i32 {
    open spec fn spec_int(v: i32) -> int {
        v as int
    }

    open spec fn spec_max() -> int {
        i32::MAX as int
    }

    open spec fn spec_min_mag() -> int {
        i32::MAX as int + 1
    }

    open spec fn spec_signed() -> bool {
        true
    }

    open spec fn spec_wide() -> bool {
        false
    }

    open spec fn spec_run_limit() -> RunLimit {
        RunLimit::Unlimited
    }

    proof fn lemma_bounds() {}

    proof fn lemma_range(v: i32) {}
}

impl ParsePos for i32 {
    fn atoi_simd_parse_pos<const SKIP_ZEROES: bool>(s: &[u8]) -> (r: Result<i32, AtoiSimdError<'_>>) {
        let limit = RunLimit::Unlimited;
        match parse_simd_checked::<SKIP_ZEROES>(s, i32::MAX as u64, limit) {
            Ok(v) => Ok(v as i32),
            Err(e) => Err(e),
        }
    }

    fn atoi_simd_parse_prefix_pos<const SKIP_ZEROES: bool>(s: &[u8]) -> (r: Result<
        (i32, usize),
        AtoiSimdError<'_>,
    >) {
        let limit = RunLimit::Unlimited;
        match parse_simd::<SKIP_ZEROES>(s, i32::MAX as u64, limit) {
            Ok((v, n)) => Ok((v as i32, n)),
            Err(e) => Err(e),
        }
    }
}

impl ParseNeg for i32 {
    fn atoi_simd_parse_neg<const SKIP_ZEROES: bool>(s: &[u8]) -> (r: Result<i32, AtoiSimdError<'_>>) {
        let limit = RunLimit::Unlimited;
        match parse_simd_checked_neg::<SKIP_ZEROES>(s, i32::MAX as u64 + 1, limit) {
            Ok(v) => Ok(v as i32),
            Err(e) => Err(e),
        }
    }

    fn atoi_simd_parse_prefix_neg<const SKIP_ZEROES: bool>(s: &[u8]) -> (r: Result<
        (i32, usize),
        AtoiSimdError<'_>,
    >) {
        let limit = RunLimit::Unlimited;
        match parse_simd_neg::<SKIP_ZEROES>(s, i32::MAX as u64 + 1, limit) {
            Ok((v, n)) => Ok((v as i32, n)),
            Err(e) => Err(e),
        }
    }
}

impl Parse for i32 {
    fn atoi_simd_parse<const SKIP_ZEROES: bool, const SKIP_PLUS: bool>(s: &[u8]) -> (r: Result<
        i32,
        AtoiSimdError<'_>,
    >) {
        atoi_simd_parse_signed::<i32, SKIP_ZEROES, SKIP_PLUS>(s)
    }

    fn atoi_simd_parse_prefix<const SKIP_ZEROES: bool, const SKIP_PLUS: bool>(s: &[u8]) -> (r:
        Result<(i32, usize), AtoiSimdError<'_>>) {
        atoi_simd_parse_prefix_signed::<i32, SKIP_ZEROES, SKIP_PLUS>(s)
    }
}

impl IntBounds for i64 {
    open spec fn spec_int(v: i64) -> int {
        v as int
    }

    open spec fn spec_max() -> int {
        i64::MAX as int
    }

    open spec fn spec_min_mag() -> int {
        i64::MAX as int + 1
    }

    open spec fn spec_signed() -> bool {
        true
    }

    open spec fn spec_wide() -> bool {
        false
    }

    open spec fn spec_run_limit() -> RunLimit {
        RunLimit::Digits { limit: 19, reported: 24 }
    }

    proof fn lemma_bounds() {
        lemma_pow10_limits();
    }

    proof fn lemma_range(v: i64) {}
}

impl ParsePos for i64 {
    fn atoi_simd_parse_pos<const SKIP_ZEROES: bool>(s: &[u8]) -> (r: Result<i64, AtoiSimdError<'_>>) {
        let limit = RunLimit::Digits { limit: 19, reported: 24 };
        match parse_simd_checked::<SKIP_ZEROES>(s, i64::MAX as u64, limit) {
            Ok(v) => Ok(v as i64),
            Err(e) => Err(e),
        }
    }

    fn atoi_simd_parse_prefix_pos<const SKIP_ZEROES: bool>(s: &[u8]) -> (r: Result<
        (i64, usize),
        AtoiSimdError<'_>,
    >) {
        let limit = RunLimit::Digits { limit: 19, reported: 24 };
        match parse_simd::<SKIP_ZEROES>(s, i64::MAX as u64, limit) {
            Ok((v, n)) => Ok((v as i64, n)),
            Err(e) => Err(e),
        }
    }
}

impl ParseNeg for i64 {
    fn atoi_simd_parse_neg<const SKIP_ZEROES: bool>(s: &[u8]) -> (r: Result<i64, AtoiSimdError<'_>>) {
        let limit = RunLimit::Digits { limit: 19, reported: 24 };
        match parse_simd_checked_neg::<SKIP_ZEROES>(s, i64::MAX as u64 + 1, limit) {
            Ok(v) => Ok(v as i64),
            Err(e) => Err(e),
        }
    }

    fn atoi_simd_parse_prefix_neg<const SKIP_ZEROES: bool>(s: &[u8]) -> (r: Result<
        (i64, usize),
        AtoiSimdError<'_>,
    >) {
        let limit = RunLimit::Digits { limit: 19, reported: 24 };
        match parse_simd_neg::<SKIP_ZEROES>(s, i64::MAX as u64 + 1, limit) {
            Ok((v, n)) => Ok((v as i64, n)),
            Err(e) => Err(e),
        }
    }
}

impl Parse for i64 {
    fn atoi_simd_parse<const SKIP_ZEROES: bool, const SKIP_PLUS: bool>(s: &[u8]) -> (r: Result<
        i64,
        AtoiSimdError<'_>,
    >) {
        atoi_simd_parse_signed::<i64, SKIP_ZEROES, SKIP_PLUS>(s)
    }

    fn atoi_simd_parse_prefix<const SKIP_ZEROES: bool, const SKIP_PLUS: bool>(s: &[u8]) -> (r:
        Result<(i64, usize), AtoiSimdError<'_>>) {
        atoi_simd_parse_prefix_signed::<i64, SKIP_ZEROES, SKIP_PLUS>(s)
    }
}

impl IntBounds for isize {
    open spec fn spec_int(v: isize) -> int {
        v as int
    }

    open spec fn spec_max() -> int {
        isize::MAX as int
    }

    open spec fn spec_min_mag() -> int {
        isize::MAX as int + 1
    }

    open spec fn spec_signed() -> bool {
        true
    }

    open spec fn spec_wide() -> bool {
        false
    }

    open spec fn spec_run_limit() -> RunLimit {
        if usize::MAX == u64::MAX {
            RunLimit::Digits { limit: 19, reported: 24 }
        } else {
            RunLimit::Unlimited
        }
    }

    proof fn lemma_bounds() {
        lemma_pow10_limits();
    }

    proof fn lemma_range(v: isize) {}
}

impl ParsePos for isize {
    fn atoi_simd_parse_pos<const SKIP_ZEROES: bool>(s: &[u8]) -> (r: Result<isize, AtoiSimdError<'_>>) {
        let limit = if usize::MAX as u64 == u64::MAX {
            RunLimit::Digits { limit: 19, reported: 24 }
        } else {
            RunLimit::Unlimited
        };
        match parse_simd_checked::<SKIP_ZEROES>(s, isize::MAX as u64, limit) {
            Ok(v) => Ok(v as isize),
            Err(e) => Err(e),
        }
    }

    fn atoi_simd_parse_prefix_pos<const SKIP_ZEROES: bool>(s: &[u8]) -> (r: Result<
        (isize, usize),
        AtoiSimdError<'_>,
    >) {
        let limit = if usize::MAX as u64 == u64::MAX {
            RunLimit::Digits { limit: 19, reported: 24 }
        } else {
            RunLimit::Unlimited
        };
        match parse_simd::<SKIP_ZEROES>(s, isize::MAX as u64, limit) {
            Ok((v, n)) => Ok((v as isize, n)),
            Err(e) => Err(e),
        }
    }
}

impl ParseNeg for isize {
    fn atoi_simd_parse_neg<const SKIP_ZEROES: bool>(s: &[u8]) -> (r: Result<isize, AtoiSimdError<'_>>) {
        let limit = if usize::MAX as u64 == u64::MAX {
            RunLimit::Digits { limit: 19, reported: 24 }
        } else {
            RunLimit::Unlimited
        };
        match parse_simd_checked_neg::<SKIP_ZEROES>(s, isize::MAX as u64 + 1, limit) {
            Ok(v) => Ok(v as isize),
            Err(e) => Err(e),
        }
    }

    fn atoi_simd_parse_prefix_neg<const SKIP_ZEROES: bool>(s: &[u8]) -> (r: Result<
        (isize, usize),
        AtoiSimdError<'_>,
    >) {
        let limit = if usize::MAX as u64 == u64::MAX {
            RunLimit::Digits { limit: 19, reported: 24 }
        } else {
            RunLimit::Unlimited
        };
        match parse_simd_neg::<SKIP_ZEROES>(s, isize::MAX as u64 + 1, limit) {
            Ok((v, n)) => Ok((v as isize, n)),
            Err(e) => Err(e),
        }
    }
}

impl Parse for isize {
    fn atoi_simd_parse<const SKIP_ZEROES: bool, const SKIP_PLUS: bool>(s: &[u8]) -> (r: Result<
        isize,
        AtoiSimdError<'_>,
    >) {
        atoi_simd_parse_signed::<isize, SKIP_ZEROES, SKIP_PLUS>(s)
    }

    fn atoi_simd_parse_prefix<const SKIP_ZEROES: bool, const SKIP_PLUS: bool>(s: &[u8]) -> (r:
        Result<(isize, usize), AtoiSimdError<'_>>) {
        atoi_simd_parse_prefix_signed::<isize, SKIP_ZEROES, SKIP_PLUS>(s)
    }
}

impl IntBounds for i128 {
    open spec fn spec_int(v: i128) -> int {
        v as int
    }

    open spec fn spec_max() -> int {
        i128::MAX as int
    }

    open spec fn spec_min_mag() -> int {
        i128::MAX as int + 1
    }

    open spec fn spec_signed() -> bool {
        true
    }

    open spec fn spec_wide() -> bool {
        true
    }

    open spec fn spec_run_limit() -> RunLimit {
        RunLimit::Digits { limit: 39, reported: 40 }
    }

    proof fn lemma_bounds() {
        lemma_pow10_limits();
    }

    proof fn lemma_range(v: i128) {}
}

impl ParsePos for i128 {
    fn atoi_simd_parse_pos<const SKIP_ZEROES: bool>(s: &[u8]) -> (r: Result<i128, AtoiSimdError<'_>>) {
        parse_simd_checked_i128::<SKIP_ZEROES>(s)
    }

    fn atoi_simd_parse_prefix_pos<const SKIP_ZEROES: bool>(s: &[u8]) -> (r: Result<
        (i128, usize),
        AtoiSimdError<'_>,
    >) {
        parse_simd_i128::<SKIP_ZEROES>(s)
    }
}

impl ParseNeg for i128 {
    fn atoi_simd_parse_neg<const SKIP_ZEROES: bool>(s: &[u8]) -> (r: Result<i128, AtoiSimdError<'_>>) {
        parse_simd_checked_i128_neg::<SKIP_ZEROES>(s)
    }

    fn atoi_simd_parse_prefix_neg<const SKIP_ZEROES: bool>(s: &[u8]) -> (r: Result<
        (i128, usize),
        AtoiSimdError<'_>,
    >) {
        parse_simd_i128_neg::<SKIP_ZEROES>(s)
    }
}

impl Parse for i128 {
    fn atoi_simd_parse<const SKIP_ZEROES: bool, const SKIP_PLUS: bool>(s: &[u8]) -> (r: Result<
        i128,
        AtoiSimdError<'_>,
    >) {
        atoi_simd_parse_signed::<i128, SKIP_ZEROES, SKIP_PLUS>(s)
    }

    fn atoi_simd_parse_prefix<const SKIP_ZEROES: bool, const SKIP_PLUS: bool>(s: &[u8]) -> (r:
        Result<(i128, usize), AtoiSimdError<'_>>) {
        atoi_simd_parse_prefix_signed::<i128, SKIP_ZEROES, SKIP_PLUS>(s)
    }
}

} // verus!
