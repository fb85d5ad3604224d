//! Reading the magnitude of a number from the digits at the start of a
//! slice, for every width the library supports.
use vstd::prelude::*;
use crate::digits::{
    all_digits, digit_run, digits_value, is_digit, leading_zeros, lemma_digit_run_bounds,
    lemma_digit_run_skip, lemma_leading_zeros_bounds, lemma_leading_zeros_in_run,
    lemma_leading_zeros_skip, lemma_leading_zeros_take_min, lemma_pow10_le, lemma_pow10_pos,
    lemma_value_concat, lemma_value_nonneg, lemma_value_skip_zeros, pow10, skipped_zeroes,
    spec_checked, spec_prefix, wide_limit, RunLimit,
};
use crate::fallback::parse_16_by_8;
use crate::error::{AtoiSimdError, SpecError};

verus! {

/// Ten to the power `k`, for the lengths of a chunk of digits.
fn pow10_u128(k: u32) -> (p: u128)
    requires
        k <= 16,
    ensures
        p == pow10(k as nat),
{
    let mut p: u128 = 1;
    let mut i: u32 = 0;
    proof {
        reveal_with_fuel(pow10, 17);
    }
    while i < k
        invariant
            i <= k <= 16,
            p == pow10(i as nat),
            pow10(16) == 10_000_000_000_000_000int,
        decreases k - i,
    {
        proof {
            lemma_pow10_le(i as nat + 1, 16);
        }
        p = p * 10;
        i = i + 1;
    }
    p
}

/// Passes over the leading zeroes of `s` sixteen digits at a time, as long
/// as a whole chunk of sixteen digits is left: the number of bytes skipped.
fn skip_zeroes(s: &[u8]) -> (p: usize)
    ensures
        p == skipped_zeroes(s@, true),
{
    let ghost n = digit_run(s@);
    let ghost z = leading_zeros(s@);
    proof {
        lemma_leading_zeros_in_run(s@);
        lemma_digit_run_bounds(s@);
        lemma_leading_zeros_bounds(s@);
    }
    let mut p: usize = 0;
    loop
        invariant_except_break
            n == digit_run(s@),
            z == leading_zeros(s@),
            z <= n <= s@.len(),
            p <= z,
            p <= n - n % 16,
            p < z ==> p % 16 == 0,
        ensures
            p == skipped_zeroes(s@, true),
        decreases s@.len() - p,
    {
        let (_, rest) = s.split_at(p);
        let (_, len, zeroes) = parse_16_by_8::<true>(rest);
        proof {
            assert(rest@ =~= s@.skip(p as int));
            assert forall|j: int| 0 <= j < p implies is_digit(#[trigger] s@[j]) by {
                lemma_leading_zeros_bounds(s@);
                assert(s@[j] == 48);
            }
            lemma_digit_run_skip(s@, p as int);
            lemma_leading_zeros_skip(s@, p as int);
            if len == 16 {
                lemma_digit_run_bounds(rest@);
                lemma_leading_zeros_take_min(rest@, 16);
            }
        }
        if zeroes == 0 {
            break;
        }
        proof {
            assert(p + zeroes <= z);
            assert(s@.len() == s.len());
        }
        p = p + zeroes as usize;
    }
    p
}

/// Reads the digit run at the start of `s`: its length, the leading zeroes
/// skipped (with `SKIP_ZEROES`), and its value, with a flag that is false
/// when the value does not fit in 128 bits.
fn read_run<const SKIP_ZEROES: bool>(s: &[u8]) -> (r: (usize, usize, u128, bool))
    ensures
        r.0 == digit_run(s@),
        r.1 == skipped_zeroes(s@, SKIP_ZEROES),
        r.1 <= r.0 <= s@.len(),
        r.3 ==> r.2 as int == digits_value(s@.take(r.0 as int)),
        !r.3 ==> digits_value(s@.take(r.0 as int)) > u128::MAX,
{
    let z: usize = if SKIP_ZEROES {
        skip_zeroes(s)
    } else {
        0
    };
    proof {
        lemma_leading_zeros_in_run(s@);
        lemma_digit_run_bounds(s@);
        lemma_leading_zeros_bounds(s@);
    }
    let (_, digits) = s.split_at(z);
    proof {
        assert(digits@ =~= s@.skip(z as int));
        assert(digits@.take(0) =~= Seq::<u8>::empty());
    }
    let mut pos: usize = 0;
    let mut acc: u128 = 0;
    let mut fits = true;
    loop
        invariant_except_break
            pos <= digits@.len(),
            all_digits(digits@.take(pos as int)),
            fits ==> acc as int == digits_value(digits@.take(pos as int)),
            !fits ==> digits_value(digits@.take(pos as int)) > u128::MAX,
        ensures
            pos == digit_run(digits@),
            pos <= digits@.len(),
            fits ==> acc as int == digits_value(digits@.take(pos as int)),
            !fits ==> digits_value(digits@.take(pos as int)) > u128::MAX,
        decreases digits@.len() - pos,
    {
        let (_, rest) = digits.split_at(pos);
        let (v, len, _) = parse_16_by_8::<false>(rest);
        let ghost old_pos = pos;
        let ghost before = digits@.take(pos as int);
        let ghost chunk = rest@.take(len as int);
        proof {
            assert(rest@ =~= digits@.skip(pos as int));
            lemma_digit_run_bounds(rest@);
            assert(digits@.take(pos + len) =~= before + chunk);
            lemma_value_concat(before, chunk);
            assert(all_digits(chunk)) by {
                assert forall|j: int| 0 <= j < chunk.len() implies is_digit(#[trigger] chunk[j]) by {
                    assert(chunk[j] == rest@.take(digit_run(rest@) as int)[j]);
                }
            }
            assert(all_digits(before + chunk)) by {
                assert forall|j: int| 0 <= j < (before + chunk).len() implies is_digit(
                    #[trigger] (before + chunk)[j],
                ) by {
                    if j < before.len() {
                        assert((before + chunk)[j] == before[j]);
                    } else {
                        assert((before + chunk)[j] == chunk[j - before.len()]);
                    }
                }
            }
            lemma_value_nonneg(before);
            lemma_value_nonneg(chunk);
            assert(len as int <= rest@.len());
            assert(rest@.len() + pos == digits@.len());
            assert(digits@.len() == digits.len());
            assert forall|j: int| 0 <= j < old_pos implies is_digit(#[trigger] digits@[j]) by {
                assert(before[j] == digits@[j]);
            }
            lemma_pow10_pos(len as nat);
            assert(digits_value(before) * pow10(len as nat) >= digits_value(before)) by (nonlinear_arith)
                requires
                    digits_value(before) >= 0,
                    pow10(len as nat) >= 1,
            ;
        }
        if fits {
            let p = pow10_u128(len);
            let next = match acc.checked_mul(p) {
                Some(m) => m.checked_add(v as u128),
                None => None,
            };
            match next {
                Some(x) => {
                    acc = x;
                },
                None => {
                    fits = false;
                },
            }
        }
        let step = len as usize;
        pos = pos + step;
        if len < 16 {
            proof {
                lemma_digit_run_skip(digits@, old_pos as int);
            }
            break;
        }
    }
    proof {
        assert(digits@.len() + z == s@.len());
        assert(s@.len() == s.len());
    }
    let n = z + pos;
    proof {
        assert forall|j: int| 0 <= j < z implies is_digit(#[trigger] s@[j]) by {
            assert(s@[j] == 48);
        }
        lemma_digit_run_skip(s@, z as int);
        assert(s@.skip(z as int) =~= digits@);
        let d = s@.take(n as int);
        assert forall|j: int| 0 <= j < z implies #[trigger] d[j] == 48 by {
            assert(d[j] == s@[j]);
        }
        lemma_value_skip_zeros(d, z as int);
        assert(d.skip(z as int) =~= digits@.take(pos as int));
    }
    (n, z, acc, fits)
}

/// Reads the digits at the start of `s` as a number of at most `max`, with
/// runs bounded by `limit`, and returns it with the number of bytes read.
fn read_magnitude<const SKIP_ZEROES: bool>(s: &[u8], max: u128, limit: RunLimit) -> (r: Result<
    (u128, usize),
    AtoiSimdError<'_>,
>)
    ensures
        match r {
            Ok((v, n)) => spec_prefix(s@, max as int, limit, SKIP_ZEROES) == Ok::<
                (int, nat),
                SpecError,
            >((v as int, n as nat)),
            Err(e) => spec_prefix(s@, max as int, limit, SKIP_ZEROES) == Err::<
                (int, nat),
                SpecError,
            >(e@),
        },
{
    let (n, z, acc, fits) = read_run::<SKIP_ZEROES>(s);
    if n == 0 {
        return Err(AtoiSimdError::Empty);
    }
    let (_, tail) = s.split_at(z);
    proof {
        assert(tail@ =~= s@.skip(z as int));
    }
    let counted = n - z;
    match limit {
        RunLimit::Digits { limit: most, reported } => {
            let most: usize = most as usize;
            let reported: usize = reported as usize;
            if counted > most {
                let shown: usize = if counted < reported {
                    counted
                } else {
                    reported
                };
                return Err(AtoiSimdError::Size(z + shown, tail));
            }
        },
        RunLimit::Unlimited => {},
    }
    if !fits || acc > max {
        return Err(AtoiSimdError::Overflow(tail));
    }
    Ok((acc, n))
}

/// Reads the digits at the start of `s` as an unsigned 128-bit number and
/// returns it with the number of bytes read. With `SKIP_ZEROES`, leading
/// zeroes do not count towards the limit of 39 digits. `LEN_LIMIT` is the
/// number of digits of the caller's largest value; the result does not
/// depend on it.
pub fn parse_simd_u128<const LEN_LIMIT: u32, const SKIP_ZEROES: bool>(s: &[u8]) -> (r: Result<
    (u128, usize),
    AtoiSimdError<'_>,
>)
    ensures
        match r {
            Ok((v, n)) => spec_prefix(s@, u128::MAX as int, wide_limit(), SKIP_ZEROES) == Ok::<
                (int, nat),
                SpecError,
            >((v as int, n as nat)),
            Err(e) => spec_prefix(s@, u128::MAX as int, wide_limit(), SKIP_ZEROES) == Err::<
                (int, nat),
                SpecError,
            >(e@),
        },
{
    read_magnitude::<SKIP_ZEROES>(s, u128::MAX, RunLimit::Digits { limit: 39, reported: 40 })
}

/// Reads all of `s` as an unsigned 128-bit number; a byte that is not a
/// digit is reported with the value read before it.
pub fn parse_simd_checked_u128<const LEN_LIMIT: u32, const SKIP_ZEROES: bool>(s: &[u8]) -> (r:
    Result<u128, AtoiSimdError<'_>>)
    ensures
        match r {
            Ok(v) => spec_checked(s@, u128::MAX as int, wide_limit(), SKIP_ZEROES, true) == Ok::<int, SpecError>(
                v as int,
            ),
            Err(e) => spec_checked(s@, u128::MAX as int, wide_limit(), SKIP_ZEROES, true) == Err::<
                int,
                SpecError,
            >(e@),
        },
{
    let (res, len) = parse_simd_u128::<LEN_LIMIT, SKIP_ZEROES>(s)?;
    if len != s.len() {
        return Err(AtoiSimdError::Invalid128(res, len, s));
    }
    Ok(res)
}

/// Reads the digits at the start of `s` as a number of at most `max`, with
/// runs bounded by `limit`.
pub fn parse_simd<const SKIP_ZEROES: bool>(s: &[u8], max: u64, limit: RunLimit) -> (r: Result<
    (u64, usize),
    AtoiSimdError<'_>,
>)
    ensures
        match r {
            Ok((v, n)) => spec_prefix(s@, max as int, limit, SKIP_ZEROES) == Ok::<(int, nat), SpecError>(
                (v as int, n as nat),
            ),
            Err(e) => spec_prefix(s@, max as int, limit, SKIP_ZEROES) == Err::<(int, nat), SpecError>(
                e@,
            ),
        },
{
    let (res, len) = read_magnitude::<SKIP_ZEROES>(s, max as u128, limit)?;
    Ok((res as u64, len))
}

/// Reads all of `s` as a number of at most `max`, with runs bounded by
/// `limit`.
pub fn parse_simd_checked<const SKIP_ZEROES: bool>(s: &[u8], max: u64, limit: RunLimit) -> (r: Result<
    u64,
    AtoiSimdError<'_>,
>)
    ensures
        match r {
            Ok(v) => spec_checked(s@, max as int, limit, SKIP_ZEROES, false) == Ok::<int, SpecError>(
                v as int,
            ),
            Err(e) => spec_checked(s@, max as int, limit, SKIP_ZEROES, false) == Err::<int, SpecError>(
                e@,
            ),
        },
{
    let (res, len) = parse_simd::<SKIP_ZEROES>(s, max, limit)?;
    if len != s.len() {
        return Err(AtoiSimdError::Invalid64(res, len, s));
    }
    Ok(res)
}

/// Reads the digits at the start of `s` as the magnitude of a negative
/// number of at least `-min_mag`, with runs bounded by `limit`, and returns
/// the negative number.
pub fn parse_simd_neg<const SKIP_ZEROES: bool>(s: &[u8], min_mag: u64, limit: RunLimit) -> (r: Result<
    (i64, usize),
    AtoiSimdError<'_>,
>)
    requires
        min_mag <= 0x8000_0000_0000_0000,
    ensures
        match r {
            Ok((v, n)) => spec_prefix(s@, min_mag as int, limit, SKIP_ZEROES) == Ok::<
                (int, nat),
                SpecError,
            >((-v, n as nat)),
            Err(e) => spec_prefix(s@, min_mag as int, limit, SKIP_ZEROES) == Err::<(int, nat), SpecError>(
                e@,
            ),
        },
        r matches Ok((v, _)) ==> -(min_mag as int) <= v <= 0,
{
    let (res, len) = parse_simd::<SKIP_ZEROES>(s, min_mag, limit)?;
    if res == 0x8000_0000_0000_0000 {
        Ok((i64::MIN, len))
    } else {
        Ok((-(res as i64), len))
    }
}

/// Reads all of `s` as the magnitude of a negative number of at least
/// `-min_mag`, with runs bounded by `limit`, and returns the negative number.
pub fn parse_simd_checked_neg<const SKIP_ZEROES: bool>(s: &[u8], min_mag: u64, limit: RunLimit) -> (r: Result<
    i64,
    AtoiSimdError<'_>,
>)
    requires
        min_mag <= 0x8000_0000_0000_0000,
    ensures
        match r {
            Ok(v) => spec_checked(s@, min_mag as int, limit, SKIP_ZEROES, false) == Ok::<int, SpecError>(
                -v,
            ),
            Err(e) => spec_checked(s@, min_mag as int, limit, SKIP_ZEROES, false) == Err::<
                int,
                SpecError,
            >(e@),
        },
        r matches Ok(v) ==> -(min_mag as int) <= v <= 0,
{
    let res = parse_simd_checked::<SKIP_ZEROES>(s, min_mag, limit)?;
    if res == 0x8000_0000_0000_0000 {
        Ok(i64::MIN)
    } else {
        Ok(-(res as i64))
    }
}

/// Reads the digits at the start of `s` as a non-negative `i128`.
pub fn parse_simd_i128<const SKIP_ZEROES: bool>(s: &[u8]) -> (r: Result<
    (i128, usize),
    AtoiSimdError<'_>,
>)
    ensures
        match r {
            Ok((v, n)) => spec_prefix(s@, i128::MAX as int, wide_limit(), SKIP_ZEROES) == Ok::<
                (int, nat),
                SpecError,
            >((v as int, n as nat)),
            Err(e) => spec_prefix(s@, i128::MAX as int, wide_limit(), SKIP_ZEROES) == Err::<
                (int, nat),
                SpecError,
            >(e@),
        },
        r matches Ok((v, _)) ==> v >= 0,
{
    let (res, len) = read_magnitude::<SKIP_ZEROES>(s, i128::MAX as u128, RunLimit::Digits { limit: 39, reported: 40 })?;
    Ok((res as i128, len))
}

/// Reads all of `s` as a non-negative `i128`.
pub fn parse_simd_checked_i128<const SKIP_ZEROES: bool>(s: &[u8]) -> (r: Result<
    i128,
    AtoiSimdError<'_>,
>)
    ensures
        match r {
            Ok(v) => spec_checked(s@, i128::MAX as int, wide_limit(), SKIP_ZEROES, true) == Ok::<int, SpecError>(
                v as int,
            ),
            Err(e) => spec_checked(s@, i128::MAX as int, wide_limit(), SKIP_ZEROES, true) == Err::<
                int,
                SpecError,
            >(e@),
        },
{
    let (res, len) = parse_simd_i128::<SKIP_ZEROES>(s)?;
    if len != s.len() {
        return Err(AtoiSimdError::Invalid128(res as u128, len, s));
    }
    Ok(res)
}

/// Reads the digits at the start of `s` as the magnitude of a negative
/// `i128`, and returns the negative number.
pub fn parse_simd_i128_neg<const SKIP_ZEROES: bool>(s: &[u8]) -> (r: Result<
    (i128, usize),
    AtoiSimdError<'_>,
>)
    ensures
        match r {
            Ok((v, n)) => spec_prefix(s@, i128::MAX as int + 1, wide_limit(), SKIP_ZEROES) == Ok::<
                (int, nat),
                SpecError,
            >((-v, n as nat)),
            Err(e) => spec_prefix(s@, i128::MAX as int + 1, wide_limit(), SKIP_ZEROES) == Err::<
                (int, nat),
                SpecError,
            >(e@),
        },
{
    let (res, len) = read_magnitude::<SKIP_ZEROES>(s, i128::MAX as u128 + 1, RunLimit::Digits { limit: 39, reported: 40 })?;
    if res == i128::MAX as u128 + 1 {
        Ok((i128::MIN, len))
    } else {
        Ok((-(res as i128), len))
    }
}

/// Reads all of `s` as the magnitude of a negative `i128`, and returns the
/// negative number.
pub fn parse_simd_checked_i128_neg<const SKIP_ZEROES: bool>(s: &[u8]) -> (r: Result<
    i128,
    AtoiSimdError<'_>,
>)
    ensures
        match r {
            Ok(v) => spec_checked(s@, i128::MAX as int + 1, wide_limit(), SKIP_ZEROES, true) == Ok::<
                int,
                SpecError,
            >(-v),
            Err(e) => spec_checked(s@, i128::MAX as int + 1, wide_limit(), SKIP_ZEROES, true) == Err::<
                int,
                SpecError,
            >(e@),
        },
{
    let (res, len) = read_magnitude::<SKIP_ZEROES>(s, i128::MAX as u128 + 1, RunLimit::Digits { limit: 39, reported: 40 })?;
    if len != s.len() {
        return Err(AtoiSimdError::Invalid128(res, len, s));
    }
    if res == i128::MAX as u128 + 1 {
        Ok(i128::MIN)
    } else {
        Ok(-(res as i128))
    }
}

} // verus!
