//! The mathematical model of decimal input: digit runs, their values and
//! what each kind of parse returns for a given byte sequence.
use vstd::prelude::*;
use crate::error::SpecError;

verus! {

/// How many digits a type reads before a run is refused as too long.
#[derive(Clone, Copy)]
pub enum RunLimit {
    /// Runs of any length are read; a value out of range is an overflow.
    Unlimited,
    /// A run of more than `limit` digits (after the skipped zeroes) is
    /// refused, and the error counts at most `reported` of them.
    Digits { limit: u32, reported: u32 },
}

impl RunLimit {
    /// A run of `k` digits is within the limit.
    pub open spec fn admits(self, k: nat) -> bool {
        match self {
            RunLimit::Unlimited => true,
            RunLimit::Digits { limit, .. } => k <= limit,
        }
    }

    /// Every number from zero to `m` has few enough digits to be read: the
    /// limit allows at least one digit and `m` is below ten to its power.
    pub open spec fn covers(self, m: int) -> bool {
        match self {
            RunLimit::Unlimited => true,
            RunLimit::Digits { limit, .. } => 1 <= limit && m < pow10(limit as nat),
        }
    }

    /// How many of `k` digits a refusal counts.
    pub open spec fn reported(self, k: nat) -> nat {
        match self {
            RunLimit::Unlimited => k,
            RunLimit::Digits { reported, .. } => if k < reported {
                k
            } else {
                reported as nat
            },
        }
    }
}

/// `b` is one of the ASCII bytes `'0'..='9'`.
pub open spec fn is_digit(b: u8) -> bool {
    48 <= b <= 57
}

/// The value of a single ASCII digit.
pub open spec fn digit_value(b: u8) -> int {
    b - 48
}

/// Every byte of `s` is a digit.
pub open spec fn all_digits(s: Seq<u8>) -> bool {
    forall|i: int| 0 <= i < s.len() ==> is_digit(#[trigger] s[i])
}

/// The number of digits at the start of `s`, up to the first byte that is
/// not a digit (or the end).
pub open spec fn digit_run(s: Seq<u8>) -> nat
    decreases s.len(),
{
    if s.len() == 0 || !is_digit(s[0]) {
        0
    } else {
        1 + digit_run(s.drop_first())
    }
}

/// The number read from `d` in base ten, most significant digit first.
pub open spec fn digits_value(d: Seq<u8>) -> int
    decreases d.len(),
{
    if d.len() == 0 {
        0
    } else {
        digits_value(d.drop_last()) * 10 + digit_value(d.last())
    }
}

/// The number of `'0'` bytes at the start of `s`.
pub open spec fn leading_zeros(s: Seq<u8>) -> nat
    decreases s.len(),
{
    if s.len() == 0 || s[0] != 48 {
        0
    } else {
        1 + leading_zeros(s.drop_first())
    }
}

/// The limit of the 128-bit types: runs of up to 39 digits, the length of
/// `u128::MAX`; a refusal counts at most 40.
pub open spec fn wide_limit() -> RunLimit {
    RunLimit::Digits { limit: 39, reported: 40 }
}

/// The leading zeroes that a read passes over before it starts to count
/// digits. Zeroes are skipped sixteen digits at a time, and only while a
/// whole chunk of sixteen digits is left, so the skip stops at the largest
/// multiple of sixteen within the run.
pub open spec fn skipped_zeroes(s: Seq<u8>, skip_zeroes: bool) -> nat {
    let n = digit_run(s);
    let z = leading_zeros(s);
    let whole = (n - n % 16) as nat;
    if !skip_zeroes {
        0
    } else if z < whole {
        z
    } else {
        whole
    }
}

/// Reading the magnitude at the start of `s`: the value of its digit run and
/// the run's length, or why it cannot be read as a number of at most `max`
/// with runs bounded by `limit`. The errors carry the input from the first
/// digit after the skipped zeroes.
pub open spec fn spec_prefix(s: Seq<u8>, max: int, limit: RunLimit, skip_zeroes: bool) -> Result<
    (int, nat),
    SpecError,
> {
    let n = digit_run(s);
    let v = digits_value(s.take(n as int));
    let p = skipped_zeroes(s, skip_zeroes);
    let counted = (n - p) as nat;
    if n == 0 {
        Err(SpecError::Empty)
    } else if !limit.admits(counted) {
        Err(SpecError::Size(p + limit.reported(counted), s.skip(p as int)))
    } else if v > max {
        Err(SpecError::Overflow(s.skip(p as int)))
    } else {
        Ok((v, n))
    }
}

/// Reading the whole of `s` as a magnitude of at most `max`: as
/// `spec_prefix`, and the digit run must be all of `s`. `wide` selects the
/// 128-bit form of the error that reports a stray byte.
pub open spec fn spec_checked(
    s: Seq<u8>,
    max: int,
    limit: RunLimit,
    skip_zeroes: bool,
    wide: bool,
) -> Result<int, SpecError> {
    match spec_prefix(s, max, limit, skip_zeroes) {
        Err(e) => Err(e),
        Ok((v, n)) => if n == s.len() {
            Ok(v)
        } else {
            Err(SpecError::Invalid(v, n, s, wide))
        },
    }
}

/// The value read is negated.
pub open spec fn negated(r: Result<int, SpecError>) -> Result<int, SpecError> {
    match r {
        Ok(v) => Ok(-v),
        Err(e) => Err(e),
    }
}

/// The value read is negated; the length stays.
pub open spec fn negated_value(r: Result<(int, nat), SpecError>) -> Result<(int, nat), SpecError> {
    match r {
        Ok((v, n)) => Ok((-v, n)),
        Err(e) => Err(e),
    }
}

/// The value read is negated and one more byte (the sign) was consumed.
pub open spec fn negated_prefix(r: Result<(int, nat), SpecError>) -> Result<(int, nat), SpecError> {
    match r {
        Ok((v, n)) => Ok((-v, n + 1)),
        Err(e) => Err(e),
    }
}

/// One more byte (a `'+'`) was consumed.
pub open spec fn plus_prefix(r: Result<(int, nat), SpecError>) -> Result<(int, nat), SpecError> {
    match r {
        Ok((v, n)) => Ok((v, n + 1)),
        Err(e) => Err(e),
    }
}

/// Reading all of `s` as an integer in `-neg_max..=pos_max`: an empty input
/// is refused; a leading `'+'` is dropped when `skip_plus` holds; a leading
/// `'-'` reads a negative number when `signed` holds; otherwise the whole
/// input is a magnitude.
pub open spec fn spec_parse_full(
    s: Seq<u8>,
    pos_max: int,
    neg_max: int,
    limit: RunLimit,
    signed: bool,
    wide: bool,
    skip_zeroes: bool,
    skip_plus: bool,
) -> Result<int, SpecError> {
    if s.len() == 0 {
        Err(SpecError::Empty)
    } else if skip_plus && s[0] == 43 {
        spec_checked(s.drop_first(), pos_max, limit, skip_zeroes, wide)
    } else if signed && s[0] == 45 {
        negated(spec_checked(s.drop_first(), neg_max, limit, skip_zeroes, wide))
    } else {
        spec_checked(s, pos_max, limit, skip_zeroes, wide)
    }
}

/// Reading an integer at the start of `s`, with the same sign rules as
/// `spec_parse_full`; the length counts the sign byte.
pub open spec fn spec_parse_prefix_full(
    s: Seq<u8>,
    pos_max: int,
    neg_max: int,
    limit: RunLimit,
    signed: bool,
    skip_zeroes: bool,
    skip_plus: bool,
) -> Result<(int, nat), SpecError> {
    if s.len() == 0 {
        Err(SpecError::Empty)
    } else if skip_plus && s[0] == 43 {
        plus_prefix(spec_prefix(s.drop_first(), pos_max, limit, skip_zeroes))
    } else if signed && s[0] == 45 {
        negated_prefix(spec_prefix(s.drop_first(), neg_max, limit, skip_zeroes))
    } else {
        spec_prefix(s, pos_max, limit, skip_zeroes)
    }
}

// ----- lemmas about the model -----

/// The digit run ends at `i` when the bytes before `i` are digits and byte
/// `i` is not one (or `i` is the end).
pub proof fn lemma_digit_run_at(s: Seq<u8>, i: int)
    requires
        0 <= i <= s.len(),
        forall|j: int| 0 <= j < i ==> is_digit(#[trigger] s[j]),
        i == s.len() || !is_digit(s[i]),
    ensures
        digit_run(s) == i,
    decreases i,
{
    if i > 0 {
        let t = s.drop_first();
        assert forall|j: int| 0 <= j < i - 1 implies is_digit(#[trigger] t[j]) by {
            assert(t[j] == s[j + 1]);
        }
        if i < s.len() {
            assert(t[i - 1] == s[i]);
        }
        lemma_digit_run_at(t, i - 1);
    }
}

/// The digit run is within `s`, and its bytes are digits.
pub proof fn lemma_digit_run_bounds(s: Seq<u8>)
    ensures
        digit_run(s) <= s.len(),
        all_digits(s.take(digit_run(s) as int)),
        digit_run(s) < s.len() ==> !is_digit(s[digit_run(s) as int]),
    decreases s.len(),
{
    if s.len() > 0 && is_digit(s[0]) {
        let t = s.drop_first();
        lemma_digit_run_bounds(t);
        let n = digit_run(s) as int;
        assert forall|i: int| 0 <= i < n implies is_digit(#[trigger] s.take(n)[i]) by {
            if i > 0 {
                assert(s.take(n)[i] == t.take(n - 1)[i - 1]);
            }
        }
        if n < s.len() {
            assert(s[n] == t[n - 1]);
        }
    }
}

/// Appending one digit multiplies the value by ten and adds the digit.
pub proof fn lemma_value_push(d: Seq<u8>, b: u8)
    ensures
        digits_value(d.push(b)) == digits_value(d) * 10 + digit_value(b),
{
    assert(d.push(b).drop_last() =~= d);
}

/// A sequence of digits has a value of at least zero, and below `10^len`.
pub proof fn lemma_value_nonneg(d: Seq<u8>)
    requires
        all_digits(d),
    ensures
        0 <= digits_value(d),
    decreases d.len(),
{
    if d.len() > 0 {
        assert(all_digits(d.drop_last())) by {
            assert forall|i: int| 0 <= i < d.drop_last().len() implies is_digit(
                #[trigger] d.drop_last()[i],
            ) by {
                assert(d.drop_last()[i] == d[i]);
            }
        }
        lemma_value_nonneg(d.drop_last());
        assert(is_digit(d[d.len() - 1]));
    }
}

/// Leading zeroes do not change the value: dropping the first `z` bytes,
/// all `'0'`, leaves it as it was.
pub proof fn lemma_value_skip_zeros(d: Seq<u8>, z: int)
    requires
        0 <= z <= d.len(),
        forall|j: int| 0 <= j < z ==> #[trigger] d[j] == 48,
    ensures
        digits_value(d) == digits_value(d.skip(z)),
    decreases d.len(),
{
    if d.len() == z {
        lemma_value_all_zeros(d);
        assert(d.skip(z).len() == 0);
    } else {
        let e = d.drop_last();
        lemma_value_skip_zeros(e, z);
        assert(d.skip(z).drop_last() =~= e.skip(z));
        assert(d.skip(z).last() == d.last());
    }
}

/// A run of `'0'` bytes has the value zero.
pub proof fn lemma_value_all_zeros(d: Seq<u8>)
    requires
        forall|j: int| 0 <= j < d.len() ==> #[trigger] d[j] == 48,
    ensures
        digits_value(d) == 0,
    decreases d.len(),
{
    if d.len() > 0 {
        let e = d.drop_last();
        assert forall|j: int| 0 <= j < e.len() implies #[trigger] e[j] == 48 by {
            assert(e[j] == d[j]);
        }
        lemma_value_all_zeros(e);
    }
}

/// The leading zeroes end at `z` when the bytes before `z` are `'0'` and
/// byte `z` is not (or `z` is the end).
pub proof fn lemma_leading_zeros_at(s: Seq<u8>, z: int)
    requires
        0 <= z <= s.len(),
        forall|j: int| 0 <= j < z ==> #[trigger] s[j] == 48,
        z == s.len() || s[z] != 48,
    ensures
        leading_zeros(s) == z,
    decreases z,
{
    if z > 0 {
        let t = s.drop_first();
        assert forall|j: int| 0 <= j < z - 1 implies #[trigger] t[j] == 48 by {
            assert(t[j] == s[j + 1]);
        }
        if z < s.len() {
            assert(t[z - 1] == s[z]);
        }
        lemma_leading_zeros_at(t, z - 1);
    }
}

/// The leading zeroes of `s` are within `s` and are `'0'` bytes.
pub proof fn lemma_leading_zeros_bounds(s: Seq<u8>)
    ensures
        leading_zeros(s) <= s.len(),
        forall|j: int| 0 <= j < leading_zeros(s) ==> #[trigger] s[j] == 48,
        leading_zeros(s) < s.len() ==> s[leading_zeros(s) as int] != 48,
    decreases s.len(),
{
    if s.len() > 0 && s[0] == 48 {
        let t = s.drop_first();
        lemma_leading_zeros_bounds(t);
        if leading_zeros(s) < s.len() {
            assert(s[leading_zeros(s) as int] == t[leading_zeros(t) as int]);
        }
        assert forall|j: int| 0 <= j < leading_zeros(s) implies #[trigger] s[j] == 48 by {
            if j > 0 {
                assert(s[j] == t[j - 1]);
            }
        }
    }
}

/// Ten to the power `n`.
pub open spec fn pow10(n: nat) -> int
    decreases n,
{
    if n == 0 {
        1
    } else {
        10 * pow10((n - 1) as nat)
    }
}

/// The decimal digits of `m`, most significant first, without leading
/// zeroes (`"0"` for zero).
pub open spec fn digits_of(m: nat) -> Seq<u8>
    decreases m,
{
    if m < 10 {
        seq![(48 + m) as u8]
    } else {
        digits_of(m / 10).push((48 + m % 10) as u8)
    }
}

/// The canonical decimal text of `v`: a `'-'` for a negative value, then
/// the digits of its magnitude.
pub open spec fn decimal(v: int) -> Seq<u8> {
    if v < 0 {
        seq![45u8] + digits_of((-v) as nat)
    } else {
        digits_of(v as nat)
    }
}

/// The digits of `m` are digits, read back as `m`, start with a non-zero
/// digit unless `m` is zero, and number at most `k` when `m < 10^k`.
pub proof fn lemma_digits_of(m: nat, k: nat)
    requires
        k >= 1,
        m < pow10(k),
    ensures
        all_digits(digits_of(m)),
        digits_value(digits_of(m)) == m,
        digits_of(m).len() >= 1,
        digits_of(m).len() <= k,
        m > 0 ==> digits_of(m)[0] != 48,
        m == 0 ==> digits_of(m) == seq![48u8],
    decreases m,
{
    if m >= 10 {
        assert(k >= 2) by {
            if k == 1 {
                assert(pow10(1) == 10 * pow10(0));
            }
        }
        assert(pow10(k) == 10 * pow10((k - 1) as nat));
        lemma_digits_of(m / 10, (k - 1) as nat);
        let d = digits_of(m / 10);
        let b = (48 + m % 10) as u8;
        lemma_value_push(d, b);
        assert(digit_value(b) == m % 10);
        assert(m == (m / 10) * 10 + m % 10);
        assert(digits_value(digits_of(m)) == digits_value(d) * 10 + digit_value(b));
        assert forall|i: int| 0 <= i < d.push(b).len() implies is_digit(#[trigger] d.push(b)[i]) by {
            if i < d.len() {
                assert(d.push(b)[i] == d[i]);
            }
        }
        assert(d.push(b)[0] == d[0]);
    } else {
        assert(digits_of(m).drop_last() =~= Seq::<u8>::empty());
        assert(digits_value(Seq::<u8>::empty()) == 0);
        assert(digit_value(digits_of(m).last()) == m);
    }
}

/// `10^39` exceeds every 128-bit value.
pub proof fn lemma_pow10_39()
    ensures
        pow10(39) == 1_000_000_000_000_000_000_000_000_000_000_000_000_000int,
        pow10(39) > u128::MAX,
{
    reveal_with_fuel(pow10, 40);
}

/// The first `n` bytes of a sequence whose digit run is `n`, when all of it
/// is digits.
pub proof fn lemma_digit_run_all(s: Seq<u8>)
    requires
        all_digits(s),
    ensures
        digit_run(s) == s.len(),
{
    lemma_digit_run_at(s, s.len() as int);
}

/// The value of digits followed by more digits: the first part shifted by
/// as many places as the second has, plus the second.
pub proof fn lemma_value_concat(a: Seq<u8>, b: Seq<u8>)
    ensures
        digits_value(a + b) == digits_value(a) * pow10(b.len()) + digits_value(b),
    decreases b.len(),
{
    if b.len() == 0 {
        assert(a + b =~= a);
    } else {
        let c = b.drop_last();
        lemma_value_concat(a, c);
        assert((a + b).drop_last() =~= a + c);
        assert((a + b).last() == b.last());
        assert(pow10(b.len()) == 10 * pow10(c.len()));
        assert(digits_value(a) * pow10(b.len()) == (digits_value(a) * pow10(c.len())) * 10) by (nonlinear_arith)
            requires
                pow10(b.len()) == 10 * pow10(c.len()),
        ;
    }
}

/// When the first `m` bytes are digits, the digit run is those `m` bytes and
/// the run that follows them.
pub proof fn lemma_digit_run_skip(s: Seq<u8>, m: int)
    requires
        0 <= m <= s.len(),
        forall|j: int| 0 <= j < m ==> is_digit(#[trigger] s[j]),
    ensures
        digit_run(s) == m + digit_run(s.skip(m)),
{
    let t = s.skip(m);
    let r = digit_run(t);
    lemma_digit_run_bounds(t);
    assert forall|j: int| 0 <= j < m + r implies is_digit(#[trigger] s[j]) by {
        if j >= m {
            assert(s[j] == t.take(r as int)[j - m]);
        }
    }
    if m + r < s.len() {
        assert(s[m + r] == t[r as int]);
    }
    lemma_digit_run_at(s, m + r);
}

/// Leading zeroes are digits, so counting them within the digit run or in
/// the whole input gives the same number.
pub proof fn lemma_leading_zeros_take(s: Seq<u8>, n: int)
    requires
        0 <= n <= s.len(),
        n == digit_run(s),
    ensures
        leading_zeros(s.take(n)) == leading_zeros(s),
{
    let z = leading_zeros(s);
    lemma_leading_zeros_bounds(s);
    lemma_digit_run_bounds(s);
    assert forall|j: int| 0 <= j < z implies is_digit(#[trigger] s[j]) by {}
    if z > n {
        assert(is_digit(s[n]));
    }
    let d = s.take(n);
    assert forall|j: int| 0 <= j < z implies #[trigger] d[j] == 48 by {}
    if z < n {
        assert(d[z as int] == s[z as int]);
    }
    lemma_leading_zeros_at(d, z as int);
}

/// Powers of ten are positive.
pub proof fn lemma_pow10_pos(n: nat)
    ensures
        pow10(n) >= 1,
    decreases n,
{
    if n > 0 {
        lemma_pow10_pos((n - 1) as nat);
    }
}

/// Powers of ten grow with the exponent.
pub proof fn lemma_pow10_le(i: nat, j: nat)
    requires
        i <= j,
    ensures
        pow10(i) <= pow10(j),
    decreases j - i,
{
    if i < j {
        lemma_pow10_le(i, (j - 1) as nat);
        lemma_pow10_pos((j - 1) as nat);
    }
}

/// Digits without a leading zero (or the single digit `"0"`) are the decimal
/// digits of their value, and a value of two digits or more is at least ten.
pub proof fn lemma_canonical_digits(d: Seq<u8>)
    requires
        d.len() >= 1,
        all_digits(d),
        d.len() > 1 ==> d[0] != 48,
    ensures
        digits_of(digits_value(d) as nat) == d,
        d.len() > 1 ==> digits_value(d) >= 10,
        d[0] != 48 ==> digits_value(d) >= 1,
    decreases d.len(),
{
    let e = d.drop_last();
    assert(d.last() == d[d.len() - 1]);
    assert(is_digit(d[d.len() - 1]));
    if d.len() == 1 {
        assert(e =~= Seq::<u8>::empty());
        assert(digits_value(e) == 0);
        assert(digits_value(d) == digits_value(e) * 10 + digit_value(d.last()));
        assert(digits_value(d) == digit_value(d[0]));
        assert(digits_of(digits_value(d) as nat) =~= d);
    } else {
        assert(all_digits(e)) by {
            assert forall|i: int| 0 <= i < e.len() implies is_digit(#[trigger] e[i]) by {
                assert(e[i] == d[i]);
            }
        }
        assert(e[0] == d[0]);
        lemma_canonical_digits(e);
        let m = digits_value(d);
        assert(m == digits_value(e) * 10 + digit_value(d.last()));
        assert(m / 10 == digits_value(e));
        assert(m % 10 == digit_value(d.last()));
        assert(digits_of(m as nat) =~= d);
    }
}

/// Passing over `p` of the leading zeroes leaves the others at the start.
pub proof fn lemma_leading_zeros_skip(s: Seq<u8>, p: int)
    requires
        0 <= p <= leading_zeros(s),
    ensures
        leading_zeros(s.skip(p)) == leading_zeros(s) - p,
{
    let z = leading_zeros(s);
    lemma_leading_zeros_bounds(s);
    let t = s.skip(p);
    assert forall|j: int| 0 <= j < z - p implies #[trigger] t[j] == 48 by {
        assert(t[j] == s[j + p]);
    }
    if z < s.len() {
        assert(t[z - p] == s[z as int]);
    }
    lemma_leading_zeros_at(t, z - p);
}

/// The leading zeroes among the first `k` bytes: those of the whole, up to
/// `k`.
pub proof fn lemma_leading_zeros_take_min(s: Seq<u8>, k: int)
    requires
        0 <= k <= s.len(),
    ensures
        leading_zeros(s.take(k)) == if leading_zeros(s) < k {
            leading_zeros(s) as int
        } else {
            k
        },
{
    let z = leading_zeros(s);
    lemma_leading_zeros_bounds(s);
    let t = s.take(k);
    let m: int = if z < k {
        z as int
    } else {
        k
    };
    assert forall|j: int| 0 <= j < m implies #[trigger] t[j] == 48 by {
        assert(t[j] == s[j]);
    }
    if m < k {
        assert(t[m] == s[m]);
    }
    lemma_leading_zeros_at(t, m);
}

/// Leading zeroes are digits: there are no more of them than the digit run.
pub proof fn lemma_leading_zeros_in_run(s: Seq<u8>)
    ensures
        leading_zeros(s) <= digit_run(s),
{
    lemma_digit_run_bounds(s);
    lemma_leading_zeros_take(s, digit_run(s) as int);
    lemma_leading_zeros_bounds(s.take(digit_run(s) as int));
}

/// The powers of ten that bound the types' digit runs.
pub proof fn lemma_pow10_limits()
    ensures
        pow10(19) == 10_000_000_000_000_000_000int,
        pow10(20) == 100_000_000_000_000_000_000int,
        pow10(39) == 1_000_000_000_000_000_000_000_000_000_000_000_000_000int,
{
    reveal_with_fuel(pow10, 40);
}

/// Digits that do not start with a zero denote at least ten to the power of
/// their number less one.
pub proof fn lemma_value_lower(d: Seq<u8>)
    requires
        d.len() >= 1,
        all_digits(d),
        d[0] != 48,
    ensures
        digits_value(d) >= pow10((d.len() - 1) as nat),
    decreases d.len(),
{
    let e = d.drop_last();
    assert(d.last() == d[d.len() - 1]);
    assert(is_digit(d[d.len() - 1]));
    if d.len() == 1 {
        assert(e =~= Seq::<u8>::empty());
        assert(digits_value(e) == 0);
    } else {
        assert(all_digits(e)) by {
            assert forall|i: int| 0 <= i < e.len() implies is_digit(#[trigger] e[i]) by {
                assert(e[i] == d[i]);
            }
        }
        assert(e[0] == d[0]);
        lemma_value_lower(e);
        assert(pow10((d.len() - 1) as nat) == 10 * pow10((e.len() - 1) as nat));
    }
}

} // verus!
