//! Properties of the parsers that hold of all inputs or relate several
//! calls, stated over the model that the parsers' contracts use.
use vstd::prelude::*;
use crate::digits::{
    all_digits, decimal, digit_run, digits_of, digits_value, is_digit, leading_zeros,
    lemma_canonical_digits, lemma_digit_run_all, lemma_digit_run_at, lemma_digit_run_bounds,
    lemma_digits_of, lemma_leading_zeros_at, lemma_leading_zeros_bounds, lemma_leading_zeros_take,
    lemma_leading_zeros_in_run, lemma_pow10_39, lemma_pow10_le, lemma_value_lower,
    lemma_value_nonneg, lemma_value_skip_zeros, negated, negated_prefix, negated_value,
    skipped_zeroes, spec_checked, spec_parse_full, spec_parse_prefix_full, spec_prefix, RunLimit,
};
use crate::error::SpecError;
use crate::linker::{spec_parse, spec_parse_prefix, IntBounds};

verus! {

/// `k` ASCII zeroes.
pub open spec fn zeroes(k: nat) -> Seq<u8> {
    Seq::new(k, |i: int| 48u8)
}

/// Reading the decimal text of any value in `-neg_max..=pos_max` gives the
/// value back, whether or not leading zeroes and a `'+'` are skipped, when
/// the run limit leaves room for the digits of both bounds.
pub proof fn law_roundtrip(
    v: int,
    pos_max: int,
    neg_max: int,
    limit: RunLimit,
    signed: bool,
    wide: bool,
    skip_zeroes: bool,
    skip_plus: bool,
)
    requires
        0 <= pos_max <= u128::MAX,
        0 <= neg_max <= u128::MAX,
        limit.covers(pos_max),
        limit.covers(neg_max),
        -neg_max <= v <= pos_max,
        v < 0 ==> signed,
    ensures
        spec_parse_full(decimal(v), pos_max, neg_max, limit, signed, wide, skip_zeroes, skip_plus)
            == Ok::<int, SpecError>(v),
        spec_parse_prefix_full(decimal(v), pos_max, neg_max, limit, signed, skip_zeroes, skip_plus)
            == Ok::<(int, nat), SpecError>((v, decimal(v).len())),
{
    let m: nat = if v < 0 {
        (-v) as nat
    } else {
        v as nat
    };
    let d = digits_of(m);
    lemma_pow10_39();
    lemma_digits_of(m, 39);
    match limit {
        RunLimit::Digits { limit: most, .. } => {
            lemma_digits_of(m, most as nat);
        },
        RunLimit::Unlimited => {},
    }
    lemma_digit_run_all(d);
    assert(d.take(d.len() as int) =~= d);
    let max = if v < 0 {
        neg_max
    } else {
        pos_max
    };
    assert(skipped_zeroes(d, skip_zeroes) <= d.len());
    assert(spec_prefix(d, max, limit, skip_zeroes) == Ok::<(int, nat), SpecError>(
        (m as int, d.len()),
    ));
    if v < 0 {
        let s = decimal(v);
        assert(s.drop_first() =~= d);
        assert(s[0] == 45u8);
    } else {
        assert(is_digit(d[0]));
    }
}

/// Every value of every supported type is read back from its decimal text,
/// by the full reads and by the reads from the start, whether or not leading
/// zeroes and a `'+'` are skipped.
pub proof fn law_roundtrip_value<T: IntBounds>(v: T, skip_zeroes: bool, skip_plus: bool)
    ensures
        spec_parse::<T>(decimal(T::spec_int(v)), skip_zeroes, skip_plus) == Ok::<int, SpecError>(
            T::spec_int(v),
        ),
        spec_parse_prefix::<T>(decimal(T::spec_int(v)), skip_zeroes, skip_plus) == Ok::<
            (int, nat),
            SpecError,
        >((T::spec_int(v), decimal(T::spec_int(v)).len())),
{
    T::lemma_bounds();
    T::lemma_range(v);
    law_roundtrip(
        T::spec_int(v),
        T::spec_max(),
        T::spec_min_mag(),
        T::spec_run_limit(),
        T::spec_signed(),
        T::spec_wide(),
        skip_zeroes,
        skip_plus,
    );
}

/// Whatever a full read accepts is a sign (where one is allowed) followed by
/// one or more digits, and the value is the number they denote, within the
/// range.
pub proof fn law_accepts_only_numbers(
    s: Seq<u8>,
    pos_max: int,
    neg_max: int,
    limit: RunLimit,
    signed: bool,
    wide: bool,
    skip_zeroes: bool,
    skip_plus: bool,
)
    requires
        spec_parse_full(s, pos_max, neg_max, limit, signed, wide, skip_zeroes, skip_plus) is Ok,
    ensures
        ({
            let v = spec_parse_full(s, pos_max, neg_max, limit, signed, wide, skip_zeroes, skip_plus)->Ok_0;
            let sign = (skip_plus && s[0] == 43) || (signed && s[0] == 45);
            let body = if sign {
                s.drop_first()
            } else {
                s
            };
            &&& body.len() > 0
            &&& all_digits(body)
            &&& if signed && s[0] == 45 {
                v == -digits_value(body) && -neg_max <= v <= 0
            } else {
                v == digits_value(body) && 0 <= v <= pos_max
            }
        }),
{
    let sign = (skip_plus && s[0] == 43) || (signed && s[0] == 45);
    let body = if sign {
        s.drop_first()
    } else {
        s
    };
    lemma_digit_run_bounds(body);
    let n = digit_run(body);
    assert(body.take(n as int) =~= body);
    lemma_value_nonneg(body);
}

/// An input without a `'+'` and without a leading zero (other than the
/// number zero itself) is read successfully only when it is the decimal text
/// of the value read: such a read accepts exactly the canonical texts.
pub proof fn law_canonical_text(
    s: Seq<u8>,
    pos_max: int,
    neg_max: int,
    limit: RunLimit,
    signed: bool,
    wide: bool,
    skip_zeroes: bool,
    skip_plus: bool,
)
    requires
        spec_parse_full(s, pos_max, neg_max, limit, signed, wide, skip_zeroes, skip_plus) is Ok,
        s[0] != 43,
        s[0] == 48 ==> s.len() == 1,
        s[0] == 45 && s.len() > 1 ==> s[1] != 48,
    ensures
        s == decimal(spec_parse_full(s, pos_max, neg_max, limit, signed, wide, skip_zeroes, skip_plus)->Ok_0),
{
    law_accepts_only_numbers(s, pos_max, neg_max, limit, signed, wide, skip_zeroes, skip_plus);
    let v = spec_parse_full(s, pos_max, neg_max, limit, signed, wide, skip_zeroes, skip_plus)->Ok_0;
    if signed && s[0] == 45 {
        let body = s.drop_first();
        assert(body[0] == s[1]);
        lemma_canonical_digits(body);
        assert(decimal(v) =~= s);
    } else {
        lemma_canonical_digits(s);
    }
}

/// What a read from the start takes in: a sign where one is allowed, then
/// one or more digits that denote the value (within the range), up to the
/// first byte that is not a digit; the length never exceeds the input.
pub proof fn law_prefix_reads_digits(
    s: Seq<u8>,
    pos_max: int,
    neg_max: int,
    limit: RunLimit,
    signed: bool,
    skip_zeroes: bool,
    skip_plus: bool,
)
    requires
        spec_parse_prefix_full(s, pos_max, neg_max, limit, signed, skip_zeroes, skip_plus) is Ok,
    ensures
        ({
            let (v, n) = spec_parse_prefix_full(s, pos_max, neg_max, limit, signed, skip_zeroes, skip_plus)->Ok_0;
            let sign = (skip_plus && s[0] == 43) || (signed && s[0] == 45);
            let k: int = if sign {
                1
            } else {
                0
            };
            let d = s.subrange(k, n as int);
            &&& k < n <= s.len()
            &&& all_digits(d)
            &&& n < s.len() ==> !is_digit(s[n as int])
            &&& if signed && s[0] == 45 {
                v == -digits_value(d) && -neg_max <= v <= 0
            } else {
                v == digits_value(d) && 0 <= v <= pos_max
            }
        }),
{
    let sign = (skip_plus && s[0] == 43) || (signed && s[0] == 45);
    let body = if sign {
        s.drop_first()
    } else {
        s
    };
    let k: int = if sign {
        1
    } else {
        0
    };
    lemma_digit_run_bounds(body);
    let m = digit_run(body);
    let d = s.subrange(k, k + m);
    assert(d =~= body.take(m as int));
    lemma_value_nonneg(d);
    if k + m < s.len() {
        assert(s[k + m] == body[m as int]);
    }
}

/// Skipping leading zeroes changes nothing when there are none, or when the
/// digit run is shorter than sixteen digits.
pub proof fn law_skip_zeroes_agree(s: Seq<u8>, max: int, limit: RunLimit)
    requires
        leading_zeros(s) == 0 || digit_run(s) < 16,
    ensures
        spec_prefix(s, max, limit, true) == spec_prefix(s, max, limit, false),
{
    assert(skipped_zeroes(s, true) == 0);
    assert(s.skip(0) =~= s);
}

/// As `law_skip_zeroes_agree`, for the reads with a sign: when the input,
/// and the input after its first byte, have no leading zero or a digit run
/// shorter than sixteen digits, skipping leading zeroes or not gives the
/// same result.
pub proof fn law_skip_zeroes_agree_full(
    s: Seq<u8>,
    pos_max: int,
    neg_max: int,
    limit: RunLimit,
    signed: bool,
    wide: bool,
    skip_plus: bool,
)
    requires
        leading_zeros(s) == 0 || digit_run(s) < 16,
        s.len() > 0 ==> leading_zeros(s.drop_first()) == 0 || digit_run(s.drop_first()) < 16,
    ensures
        spec_parse_full(s, pos_max, neg_max, limit, signed, wide, true, skip_plus)
            == spec_parse_full(s, pos_max, neg_max, limit, signed, wide, false, skip_plus),
        spec_parse_prefix_full(s, pos_max, neg_max, limit, signed, true, skip_plus)
            == spec_parse_prefix_full(s, pos_max, neg_max, limit, signed, false, skip_plus),
{
    law_skip_zeroes_agree(s, pos_max, limit);
    if s.len() > 0 {
        law_skip_zeroes_agree(s.drop_first(), pos_max, limit);
        law_skip_zeroes_agree(s.drop_first(), neg_max, limit);
    }
}

/// Skipping leading zeroes never refuses what the read without skipping
/// accepts: it reads the same value and length.
pub proof fn law_skipping_keeps_accepted(s: Seq<u8>, max: int, limit: RunLimit)
    requires
        spec_prefix(s, max, limit, false) is Ok,
    ensures
        spec_prefix(s, max, limit, true) == spec_prefix(s, max, limit, false),
{
    assert(skipped_zeroes(s, true) <= digit_run(s));
}

/// Zeroes put in front of `t` lengthen its digit run and its leading
/// zeroes by their number, and leave the value of the run as it is.
proof fn lemma_zeroes_in_front(t: Seq<u8>, k: nat)
    ensures
        digit_run(zeroes(k) + t) == k + digit_run(t),
        leading_zeros(zeroes(k) + t) == k + leading_zeros(t),
        digits_value((zeroes(k) + t).take((k + digit_run(t)) as int)) == digits_value(
            t.take(digit_run(t) as int),
        ),
        leading_zeros(t) <= digit_run(t),
{
    let s = zeroes(k) + t;
    let n = digit_run(t);
    lemma_digit_run_bounds(t);
    assert forall|j: int| 0 <= j < k + n implies is_digit(#[trigger] s[j]) by {
        if j >= k {
            assert(s[j] == t.take(n as int)[j - k]);
        } else {
            assert(s[j] == zeroes(k)[j]);
        }
    }
    if k + n < s.len() {
        assert(s[(k + n) as int] == t[n as int]);
    }
    lemma_digit_run_at(s, (k + n) as int);
    let z = leading_zeros(t);
    lemma_leading_zeros_bounds(t);
    assert forall|j: int| 0 <= j < k + z implies #[trigger] s[j] == 48 by {
        if j >= k {
            assert(s[j] == t[j - k]);
        } else {
            assert(s[j] == zeroes(k)[j]);
        }
    }
    if k + z < s.len() {
        assert(s[(k + z) as int] == t[z as int]);
    }
    lemma_leading_zeros_at(s, (k + z) as int);
    let d = s.take((k + n) as int);
    let e = t.take(n as int);
    assert forall|j: int| 0 <= j < k implies #[trigger] d[j] == 48 by {
        assert(d[j] == zeroes(k)[j]);
    }
    lemma_value_skip_zeros(d, k as int);
    assert(d.skip(k as int) =~= e);
    lemma_leading_zeros_in_run(t);
}

/// Skipping leading zeroes: putting any number of `'0'` bytes in front of
/// an input that reads as `(v, n)` reads as `v`, with those bytes counted,
/// for any limit that admits a run of fifteen digits.
pub proof fn law_leading_zeroes_skipped(t: Seq<u8>, k: nat, max: int, limit: RunLimit)
    requires
        spec_prefix(t, max, limit, true) is Ok,
        limit.admits(15),
    ensures
        ({
            let (v, n) = spec_prefix(t, max, limit, true)->Ok_0;
            spec_prefix(zeroes(k) + t, max, limit, true) == Ok::<(int, nat), SpecError>((v, n + k))
        }),
{
    let s = zeroes(k) + t;
    lemma_zeroes_in_front(t, k);
    let n = digit_run(t);
    let ns = k + n;
    let ps = skipped_zeroes(s, true);
    let pt = skipped_zeroes(t, true);
    if ps == k + leading_zeros(t) {
        assert(ns - ps <= n - pt);
    } else {
        assert(ns - ps == ns % 16);
    }
}

/// The value of a full read, when it succeeds.
pub open spec fn ok_value(r: Result<int, SpecError>) -> Option<int> {
    match r {
        Ok(v) => Some(v),
        Err(_) => None,
    }
}

/// What Rust's `str::parse` gives for an integer type whose values are
/// `-neg_max..=pos_max`, as its documentation describes it: an optional
/// `'+'` (or, for a signed type, `'-'`), then one or more ASCII digits, leading
/// zeroes allowed, whose value lies in the range; every other input is
/// refused.
pub open spec fn std_parse(s: Seq<u8>, pos_max: int, neg_max: int, signed: bool) -> Option<int> {
    let neg = s.len() > 0 && signed && s[0] == 45;
    let body = if s.len() > 0 && (s[0] == 43 || neg) {
        s.drop_first()
    } else {
        s
    };
    let v = digits_value(body);
    if body.len() == 0 || !all_digits(body) {
        None
    } else if neg {
        if v <= neg_max {
            Some(-v)
        } else {
            None
        }
    } else if v <= pos_max {
        Some(v)
    } else {
        None
    }
}

/// A read from the start succeeds on a nonempty digit run whose value is at
/// most `max`, with that value and the run's length, when the limit leaves
/// room for the digits of `max`, admits fifteen digits, and (without zero
/// skipping) admits the whole run.
proof fn lemma_prefix_complete(b: Seq<u8>, max: int, limit: RunLimit, skip_zeroes: bool)
    requires
        digit_run(b) > 0,
        digits_value(b.take(digit_run(b) as int)) <= max,
        limit.covers(max),
        limit.admits(15),
        skip_zeroes || limit.admits(digit_run(b)),
    ensures
        spec_prefix(b, max, limit, skip_zeroes) == Ok::<(int, nat), SpecError>(
            (digits_value(b.take(digit_run(b) as int)), digit_run(b)),
        ),
{
    let n = digit_run(b);
    let d = b.take(n as int);
    lemma_digit_run_bounds(b);
    lemma_leading_zeros_take(b, n as int);
    lemma_leading_zeros_bounds(d);
    let z = leading_zeros(b);
    let p = skipped_zeroes(b, skip_zeroes);
    if skip_zeroes {
        if p < z {
            assert(n - p == n % 16);
        } else if z < n {
            let c = d.skip(z as int);
            assert(c[0] == d[z as int]);
            assert(all_digits(c)) by {
                assert forall|i: int| 0 <= i < c.len() implies is_digit(#[trigger] c[i]) by {
                    assert(c[i] == d[i + z]);
                }
            }
            lemma_value_skip_zeros(d, z as int);
            lemma_value_lower(c);
            match limit {
                RunLimit::Digits { limit: most, .. } => {
                    if c.len() > most {
                        lemma_pow10_le(most as nat, (c.len() - 1) as nat);
                    }
                },
                RunLimit::Unlimited => {},
            }
        }
    }
}

/// A whole-input read of a magnitude accepts exactly the nonempty runs of
/// digits whose value is at most `max`, and gives that value, when the limit
/// leaves room for the digits of `max`, admits fifteen digits, and (without
/// zero skipping) admits the length of the input.
pub proof fn law_checked_exact(b: Seq<u8>, max: int, limit: RunLimit, skip_zeroes: bool, wide: bool)
    requires
        limit.covers(max),
        limit.admits(15),
        skip_zeroes || limit.admits(b.len()),
    ensures
        ok_value(spec_checked(b, max, limit, skip_zeroes, wide)) == if b.len() > 0 && all_digits(b)
            && digits_value(b) <= max {
            Some(digits_value(b))
        } else {
            None
        },
{
    let n = digit_run(b);
    lemma_digit_run_bounds(b);
    if n == b.len() {
        assert(b.take(n as int) =~= b);
    }
    if b.len() > 0 && all_digits(b) && digits_value(b) <= max {
        lemma_digit_run_all(b);
        lemma_prefix_complete(b, max, limit, skip_zeroes);
    }
}

/// A whole-input read of the magnitude of a negative number accepts exactly
/// the nonempty runs of digits whose value is at most `max`, and gives the
/// negated value, under the conditions of `law_checked_exact`.
pub proof fn law_neg_checked_exact(b: Seq<u8>, max: int, limit: RunLimit, skip_zeroes: bool, wide: bool)
    requires
        limit.covers(max),
        limit.admits(15),
        skip_zeroes || limit.admits(b.len()),
    ensures
        ok_value(negated(spec_checked(b, max, limit, skip_zeroes, wide))) == if b.len() > 0
            && all_digits(b) && digits_value(b) <= max {
            Some(-digits_value(b))
        } else {
            None
        },
{
    law_checked_exact(b, max, limit, skip_zeroes, wide);
}

/// `parse_skipped` is a drop-in replacement for `str::parse`: with leading
/// zeroes and a `'+'` skipped, a full read accepts exactly what `std_parse`
/// accepts, with the same value, for any limit that leaves room for the
/// digits of both bounds and admits fifteen digits.
pub proof fn law_skipped_is_std_parse(
    s: Seq<u8>,
    pos_max: int,
    neg_max: int,
    limit: RunLimit,
    signed: bool,
    wide: bool,
)
    requires
        0 <= pos_max,
        0 <= neg_max,
        limit.covers(pos_max),
        limit.covers(neg_max),
        limit.admits(15),
    ensures
        ok_value(spec_parse_full(s, pos_max, neg_max, limit, signed, wide, true, true)) == std_parse(
            s,
            pos_max,
            neg_max,
            signed,
        ),
{
    if s.len() > 0 {
        law_checked_exact(s.drop_first(), pos_max, limit, true, wide);
        law_checked_exact(s.drop_first(), neg_max, limit, true, wide);
        law_checked_exact(s, pos_max, limit, true, wide);
    }
}

/// The plain full read agrees with `str::parse` on input that does not start
/// with a `'+'` and whose digits (after a `'-'` of a signed type) have no
/// leading zero or number fewer than sixteen.
pub proof fn law_plain_is_std_parse(
    s: Seq<u8>,
    pos_max: int,
    neg_max: int,
    limit: RunLimit,
    signed: bool,
    wide: bool,
)
    requires
        0 <= pos_max,
        0 <= neg_max,
        limit.covers(pos_max),
        limit.covers(neg_max),
        limit.admits(15),
        s.len() > 0 ==> s[0] != 43,
        ({
            let body = if s.len() > 0 && signed && s[0] == 45 {
                s.drop_first()
            } else {
                s
            };
            leading_zeros(body) == 0 || digit_run(body) < 16
        }),
    ensures
        ok_value(spec_parse_full(s, pos_max, neg_max, limit, signed, wide, false, false))
            == std_parse(s, pos_max, neg_max, signed),
{
    law_skipped_is_std_parse(s, pos_max, neg_max, limit, signed, wide);
    let body = if s.len() > 0 && signed && s[0] == 45 {
        s.drop_first()
    } else {
        s
    };
    law_skip_zeroes_agree(body, pos_max, limit);
    law_skip_zeroes_agree(body, neg_max, limit);
}

/// Whatever the plain full read accepts, the read that skips leading zeroes
/// and a `'+'` accepts too, with the same value.
pub proof fn law_skipped_accepts_plain(
    s: Seq<u8>,
    pos_max: int,
    neg_max: int,
    limit: RunLimit,
    signed: bool,
    wide: bool,
    v: int,
)
    requires
        spec_parse_full(s, pos_max, neg_max, limit, signed, wide, false, false) == Ok::<
            int,
            SpecError,
        >(v),
    ensures
        spec_parse_full(s, pos_max, neg_max, limit, signed, wide, true, true) == Ok::<
            int,
            SpecError,
        >(v),
{
    let t = s.drop_first();
    if spec_prefix(s, pos_max, limit, false) is Ok {
        law_skipping_keeps_accepted(s, pos_max, limit);
    }
    if spec_prefix(t, neg_max, limit, false) is Ok {
        law_skipping_keeps_accepted(t, neg_max, limit);
    }
}

/// With zero skipping, a whole-input read of `k` zeroes and then a nonempty
/// run of digits accepts exactly when the read of the digits alone does,
/// with the same value.
proof fn lemma_zeroes_checked(d: Seq<u8>, k: nat, max: int, limit: RunLimit, wide: bool)
    requires
        d.len() > 0,
        all_digits(d),
        limit.admits(15),
    ensures
        ok_value(spec_checked(zeroes(k) + d, max, limit, true, wide)) == ok_value(
            spec_checked(d, max, limit, true, wide),
        ),
{
    let s = zeroes(k) + d;
    lemma_zeroes_in_front(d, k);
    lemma_digit_run_all(d);
    assert(d.take(d.len() as int) =~= d);
    if spec_prefix(d, max, limit, true) is Ok {
        law_leading_zeroes_skipped(d, k, max, limit);
    }
    let n = d.len();
    let pd = skipped_zeroes(d, true);
    let ps = skipped_zeroes(s, true);
    if pd == leading_zeros(d) {
        assert(n - pd <= (n + k) - ps);
    } else {
        assert(n - pd == n % 16);
    }
}

/// Leading zeroes never change what a read with zero skipping gives: behind
/// a sign that the read accepts, or none, `k` zeroes in front of a nonempty
/// run of digits leave its acceptance and its value as they are, for any
/// limit that admits fifteen digits.
pub proof fn law_zeroes_keep_validity(
    sg: Seq<u8>,
    k: nat,
    d: Seq<u8>,
    pos_max: int,
    neg_max: int,
    limit: RunLimit,
    signed: bool,
    wide: bool,
    skip_plus: bool,
)
    requires
        d.len() > 0,
        all_digits(d),
        limit.admits(15),
        sg.len() == 0 || (sg.len() == 1 && ((skip_plus && sg[0] == 43) || (signed && sg[0]
            == 45))),
    ensures
        ok_value(spec_parse_full(sg + zeroes(k) + d, pos_max, neg_max, limit, signed, wide, true, skip_plus))
            == ok_value(spec_parse_full(sg + d, pos_max, neg_max, limit, signed, wide, true, skip_plus)),
{
    lemma_zeroes_checked(d, k, pos_max, limit, wide);
    lemma_zeroes_checked(d, k, neg_max, limit, wide);
    let s = sg + zeroes(k) + d;
    let e = sg + d;
    assert(is_digit(d[0]));
    if sg.len() == 1 {
        assert(s.drop_first() =~= zeroes(k) + d);
        assert(e.drop_first() =~= d);
        assert(s[0] == sg[0]);
        assert(e[0] == sg[0]);
    } else {
        assert(s =~= zeroes(k) + d);
        assert(e =~= d);
        if k > 0 {
            assert(s[0] == zeroes(k)[0]);
        } else {
            assert(s =~= d);
        }
    }
}

/// `law_skipped_is_std_parse` for each supported type: `parse_skipped`
/// accepts what `str::parse` accepts, with the same value.
pub proof fn law_parse_skipped_is_std<T: IntBounds>(s: Seq<u8>)
    ensures
        ok_value(spec_parse::<T>(s, true, true)) == std_parse(
            s,
            T::spec_max(),
            T::spec_min_mag(),
            T::spec_signed(),
        ),
{
    T::lemma_bounds();
    law_skipped_is_std_parse(
        s,
        T::spec_max(),
        T::spec_min_mag(),
        T::spec_run_limit(),
        T::spec_signed(),
        T::spec_wide(),
    );
}

/// `law_plain_is_std_parse` for each supported type: `parse` agrees with
/// `str::parse` on input without a `'+'` whose digits have no leading zero
/// (or are fewer than sixteen).
pub proof fn law_parse_is_std<T: IntBounds>(s: Seq<u8>)
    requires
        s.len() > 0 ==> s[0] != 43,
        ({
            let body = if s.len() > 0 && T::spec_signed() && s[0] == 45 {
                s.drop_first()
            } else {
                s
            };
            leading_zeros(body) == 0 || digit_run(body) < 16
        }),
    ensures
        ok_value(spec_parse::<T>(s, false, false)) == std_parse(
            s,
            T::spec_max(),
            T::spec_min_mag(),
            T::spec_signed(),
        ),
{
    T::lemma_bounds();
    law_plain_is_std_parse(
        s,
        T::spec_max(),
        T::spec_min_mag(),
        T::spec_run_limit(),
        T::spec_signed(),
        T::spec_wide(),
    );
}

/// `law_skipped_accepts_plain` for each supported type: what `parse`
/// accepts, `parse_skipped` accepts with the same value.
pub proof fn law_parse_skipped_accepts_parse<T: IntBounds>(s: Seq<u8>, v: int)
    requires
        spec_parse::<T>(s, false, false) == Ok::<int, SpecError>(v),
    ensures
        spec_parse::<T>(s, true, true) == Ok::<int, SpecError>(v),
{
    law_skipped_accepts_plain(
        s,
        T::spec_max(),
        T::spec_min_mag(),
        T::spec_run_limit(),
        T::spec_signed(),
        T::spec_wide(),
        v,
    );
}

/// `law_zeroes_keep_validity` for each supported type: for `parse_skipped`,
/// zeroes between an optional sign and a nonempty run of digits never change
/// acceptance or value.
pub proof fn law_parse_skipped_ignores_zeroes<T: IntBounds>(sg: Seq<u8>, k: nat, d: Seq<u8>)
    requires
        d.len() > 0,
        all_digits(d),
        sg.len() == 0 || (sg.len() == 1 && (sg[0] == 43 || (T::spec_signed() && sg[0] == 45))),
    ensures
        ok_value(spec_parse::<T>(sg + zeroes(k) + d, true, true)) == ok_value(
            spec_parse::<T>(sg + d, true, true),
        ),
{
    T::lemma_bounds();
    law_zeroes_keep_validity(
        sg,
        k,
        d,
        T::spec_max(),
        T::spec_min_mag(),
        T::spec_run_limit(),
        T::spec_signed(),
        T::spec_wide(),
        true,
    );
}

/// A read from the start stops at the first byte that is not a digit: what
/// follows it does not change the value or the length, and an input whose
/// digits alone cannot be read still cannot.
pub proof fn law_prefix_stops_at_non_digit(
    d: Seq<u8>,
    c: u8,
    rest: Seq<u8>,
    max: int,
    limit: RunLimit,
    skip_zeroes: bool,
)
    requires
        all_digits(d),
        !is_digit(c),
    ensures
        spec_prefix(d, max, limit, skip_zeroes) is Ok ==> spec_prefix(
            d + seq![c] + rest,
            max,
            limit,
            skip_zeroes,
        ) == spec_prefix(d, max, limit, skip_zeroes),
        spec_prefix(d, max, limit, skip_zeroes) is Err ==> spec_prefix(
            d + seq![c] + rest,
            max,
            limit,
            skip_zeroes,
        ) is Err,
{
    let s = d + seq![c] + rest;
    assert forall|j: int| 0 <= j < d.len() implies is_digit(#[trigger] s[j]) by {
        assert(s[j] == d[j]);
    }
    assert(s[d.len() as int] == c);
    lemma_digit_run_at(s, d.len() as int);
    lemma_digit_run_all(d);
    assert(s.take(d.len() as int) =~= d);
    assert(d.take(d.len() as int) =~= d);
    lemma_leading_zeros_take(s, d.len() as int);
    lemma_leading_zeros_take(d, d.len() as int);
}

/// A byte that is not a digit, anywhere but in the place of an accepted
/// sign, makes a full read fail.
pub proof fn law_stray_byte_refused(
    s: Seq<u8>,
    i: int,
    pos_max: int,
    neg_max: int,
    limit: RunLimit,
    signed: bool,
    wide: bool,
    skip_zeroes: bool,
    skip_plus: bool,
)
    requires
        0 <= i < s.len(),
        !is_digit(s[i]),
        i == 0 ==> !((skip_plus && s[0] == 43) || (signed && s[0] == 45)),
    ensures
        spec_parse_full(s, pos_max, neg_max, limit, signed, wide, skip_zeroes, skip_plus) is Err,
{
    if spec_parse_full(s, pos_max, neg_max, limit, signed, wide, skip_zeroes, skip_plus) is Ok {
        law_accepts_only_numbers(s, pos_max, neg_max, limit, signed, wide, skip_zeroes, skip_plus);
        let sign = (skip_plus && s[0] == 43) || (signed && s[0] == 45);
        if sign {
            assert(s.drop_first()[i - 1] == s[i]);
        }
    }
}

/// A full read succeeds exactly when the read from the start succeeds and
/// takes in the whole input (its sign included), with the same value.
pub proof fn law_full_is_whole_prefix(
    s: Seq<u8>,
    pos_max: int,
    neg_max: int,
    limit: RunLimit,
    signed: bool,
    wide: bool,
    skip_zeroes: bool,
    skip_plus: bool,
    v: int,
)
    ensures
        spec_parse_full(s, pos_max, neg_max, limit, signed, wide, skip_zeroes, skip_plus) == Ok::<
            int,
            SpecError,
        >(v) <==> spec_parse_prefix_full(s, pos_max, neg_max, limit, signed, skip_zeroes, skip_plus)
            == Ok::<(int, nat), SpecError>((v, s.len())),
{
    if s.len() > 0 {
        let t = s.drop_first();
        assert(t.len() + 1 == s.len());
    }
}

/// Reading a value with a `'-'` in front gives the negation of reading the
/// same digits as a magnitude, for the signed types.
pub proof fn law_minus_negates(
    t: Seq<u8>,
    pos_max: int,
    neg_max: int,
    limit: RunLimit,
    wide: bool,
    skip_zeroes: bool,
    skip_plus: bool,
)
    ensures
        spec_parse_full(seq![45u8] + t, pos_max, neg_max, limit, true, wide, skip_zeroes, skip_plus)
            == negated(spec_checked(t, neg_max, limit, skip_zeroes, wide)),
        spec_parse_prefix_full(seq![45u8] + t, pos_max, neg_max, limit, true, skip_zeroes, skip_plus)
            == negated_prefix(spec_prefix(t, neg_max, limit, skip_zeroes)),
{
    assert((seq![45u8] + t).drop_first() =~= t);
    assert((seq![45u8] + t)[0] == 45u8);
}

/// What a read of a magnitude from the start gives back: the whole digit run
/// at the start (at least one digit, up to the first byte that is not one)
/// and its value, which is at most `max`.
pub proof fn law_magnitude_prefix_reads_digits(b: Seq<u8>, max: int, limit: RunLimit, skip_zeroes: bool)
    requires
        spec_prefix(b, max, limit, skip_zeroes) is Ok,
    ensures
        ({
            let (v, n) = spec_prefix(b, max, limit, skip_zeroes)->Ok_0;
            &&& 1 <= n <= b.len()
            &&& all_digits(b.take(n as int))
            &&& n < b.len() ==> !is_digit(b[n as int])
            &&& v == digits_value(b.take(n as int))
            &&& 0 <= v <= max
        }),
{
    lemma_digit_run_bounds(b);
    lemma_value_nonneg(b.take(digit_run(b) as int));
}

/// A read of a magnitude from the start succeeds exactly when the input
/// starts with a digit and the value of its digit run is at most `max`, and
/// then gives that value and the run's length, when the limit leaves room
/// for the digits of `max`, admits fifteen digits, and (without zero
/// skipping) admits the whole run.
pub proof fn law_magnitude_prefix_exact(b: Seq<u8>, max: int, limit: RunLimit, skip_zeroes: bool)
    requires
        limit.covers(max),
        limit.admits(15),
        skip_zeroes || limit.admits(digit_run(b)),
    ensures
        (spec_prefix(b, max, limit, skip_zeroes) is Ok) == (digit_run(b) > 0 && digits_value(
            b.take(digit_run(b) as int),
        ) <= max),
        digit_run(b) > 0 && digits_value(b.take(digit_run(b) as int)) <= max ==> spec_prefix(
            b,
            max,
            limit,
            skip_zeroes,
        ) == Ok::<(int, nat), SpecError>((digits_value(b.take(digit_run(b) as int)), digit_run(b))),
{
    if digit_run(b) > 0 && digits_value(b.take(digit_run(b) as int)) <= max {
        lemma_prefix_complete(b, max, limit, skip_zeroes);
    }
}

/// What a read of a negative number's magnitude from the start gives back:
/// at least one digit, the whole digit run at the start, and the negated
/// value of those digits, at least `-max`.
pub proof fn law_neg_prefix_reads_digits(b: Seq<u8>, max: int, limit: RunLimit, skip_zeroes: bool)
    requires
        negated_value(spec_prefix(b, max, limit, skip_zeroes)) is Ok,
    ensures
        ({
            let (v, n) = negated_value(spec_prefix(b, max, limit, skip_zeroes))->Ok_0;
            &&& 1 <= n <= b.len()
            &&& n == digit_run(b)
            &&& all_digits(b.take(n as int))
            &&& v == -digits_value(b.take(n as int))
            &&& -max <= v <= 0
        }),
{
    law_magnitude_prefix_reads_digits(b, max, limit, skip_zeroes);
}

/// A read of a negative number's magnitude from the start succeeds exactly
/// when the input starts with a digit and the value of its digit run is at
/// most `max`, and then gives the negated value and the run's length, under
/// the conditions of `law_magnitude_prefix_exact`.
pub proof fn law_neg_prefix_exact(b: Seq<u8>, max: int, limit: RunLimit, skip_zeroes: bool)
    requires
        limit.covers(max),
        limit.admits(15),
        skip_zeroes || limit.admits(digit_run(b)),
    ensures
        (negated_value(spec_prefix(b, max, limit, skip_zeroes)) is Ok) == (digit_run(b) > 0
            && digits_value(b.take(digit_run(b) as int)) <= max),
        digit_run(b) > 0 && digits_value(b.take(digit_run(b) as int)) <= max ==> negated_value(
            spec_prefix(b, max, limit, skip_zeroes),
        ) == Ok::<(int, nat), SpecError>((-digits_value(b.take(digit_run(b) as int)), digit_run(b))),
{
    law_magnitude_prefix_exact(b, max, limit, skip_zeroes);
}

/// Reading a negative number's magnitude from the start of `t` agrees with
/// reading `'-'` followed by `t` with the sign: the same value, one byte
/// fewer, and a failure exactly when that read fails.
pub proof fn law_neg_prefix_is_minus_prefix(
    t: Seq<u8>,
    pos_max: int,
    neg_max: int,
    limit: RunLimit,
    skip_zeroes: bool,
    skip_plus: bool,
    v: int,
    n: nat,
)
    ensures
        (negated_value(spec_prefix(t, neg_max, limit, skip_zeroes)) is Ok) == (spec_parse_prefix_full(
            seq![45u8] + t,
            pos_max,
            neg_max,
            limit,
            true,
            skip_zeroes,
            skip_plus,
        ) is Ok),
        (negated_value(spec_prefix(t, neg_max, limit, skip_zeroes)) == Ok::<(int, nat), SpecError>(
            (v, n),
        )) == (spec_parse_prefix_full(seq![45u8] + t, pos_max, neg_max, limit, true, skip_zeroes, skip_plus)
            == Ok::<(int, nat), SpecError>((v, n + 1))),
{
    assert((seq![45u8] + t).drop_first() =~= t);
    assert((seq![45u8] + t)[0] == 45u8);
}

/// A read with a sign from the start succeeds exactly when, after a sign
/// that the read accepts, the input has at least one digit and the value of
/// the digit run is within the bound for that sign; it then gives the value
/// (negated after a `'-'`) and the length of the sign and the run, when the
/// limit leaves room for the digits of both bounds, admits fifteen digits,
/// and (without zero skipping) admits the whole run.
pub proof fn law_prefix_full_exact(
    s: Seq<u8>,
    pos_max: int,
    neg_max: int,
    limit: RunLimit,
    signed: bool,
    skip_zeroes: bool,
    skip_plus: bool,
)
    requires
        limit.covers(pos_max),
        limit.covers(neg_max),
        limit.admits(15),
        ({
            let sign = s.len() > 0 && ((skip_plus && s[0] == 43) || (signed && s[0] == 45));
            let body = if sign {
                s.drop_first()
            } else {
                s
            };
            skip_zeroes || limit.admits(digit_run(body))
        }),
    ensures
        ({
            let neg = s.len() > 0 && !(skip_plus && s[0] == 43) && signed && s[0] == 45;
            let sign = s.len() > 0 && ((skip_plus && s[0] == 43) || (signed && s[0] == 45));
            let body = if sign {
                s.drop_first()
            } else {
                s
            };
            let k: nat = if sign {
                1
            } else {
                0
            };
            let n = digit_run(body);
            let m = digits_value(body.take(n as int));
            let max = if neg {
                neg_max
            } else {
                pos_max
            };
            &&& (spec_parse_prefix_full(s, pos_max, neg_max, limit, signed, skip_zeroes, skip_plus) is Ok)
                == (n > 0 && m <= max)
            &&& n > 0 && m <= max ==> spec_parse_prefix_full(
                s,
                pos_max,
                neg_max,
                limit,
                signed,
                skip_zeroes,
                skip_plus,
            ) == Ok::<(int, nat), SpecError>((if neg {
                -m
            } else {
                m
            }, k + n))
        }),
{
    if s.len() > 0 {
        if (skip_plus && s[0] == 43) || (signed && s[0] == 45) {
            law_magnitude_prefix_exact(s.drop_first(), pos_max, limit, skip_zeroes);
            law_magnitude_prefix_exact(s.drop_first(), neg_max, limit, skip_zeroes);
        } else {
            law_magnitude_prefix_exact(s, pos_max, limit, skip_zeroes);
        }
    } else {
        assert(digit_run(s) == 0);
    }
}

/// A read with a sign from the start stops at the first byte that is not a
/// digit: behind a sign that the read accepts, or none, a run of digits that
/// reads as `(v, n)` still reads as `(v, n)` whatever byte that is not a
/// digit, and whatever else, follows it.
pub proof fn law_prefix_full_stops_at_non_digit(
    sg: Seq<u8>,
    d: Seq<u8>,
    c: u8,
    rest: Seq<u8>,
    pos_max: int,
    neg_max: int,
    limit: RunLimit,
    signed: bool,
    skip_zeroes: bool,
    skip_plus: bool,
)
    requires
        all_digits(d),
        !is_digit(c),
        sg.len() == 0 || (sg.len() == 1 && ((skip_plus && sg[0] == 43) || (signed && sg[0]
            == 45))),
        spec_parse_prefix_full(sg + d, pos_max, neg_max, limit, signed, skip_zeroes, skip_plus) is Ok,
    ensures
        spec_parse_prefix_full(sg + d + seq![c] + rest, pos_max, neg_max, limit, signed, skip_zeroes, skip_plus)
            == spec_parse_prefix_full(sg + d, pos_max, neg_max, limit, signed, skip_zeroes, skip_plus),
{
    let s = sg + d + seq![c] + rest;
    let e = sg + d;
    law_prefix_stops_at_non_digit(d, c, rest, pos_max, limit, skip_zeroes);
    law_prefix_stops_at_non_digit(d, c, rest, neg_max, limit, skip_zeroes);
    if sg.len() == 1 {
        assert(s.drop_first() =~= d + seq![c] + rest);
        assert(e.drop_first() =~= d);
        assert(s[0] == sg[0]);
        assert(e[0] == sg[0]);
    } else {
        assert(s =~= d + seq![c] + rest);
        assert(e =~= d);
        if d.len() == 0 {
            assert(digit_run(d) == 0);
        } else {
            assert(s[0] == d[0]);
            assert(is_digit(d[0]));
        }
    }
}

/// `law_prefix_full_exact` for each supported type: `parse_prefix` (and the
/// sign-aware reads with skipping) succeed exactly when the digit run after
/// an accepted sign is nonempty and its value is within the type's bound for
/// that sign, and then give that value and the length read.
pub proof fn law_parse_prefix_exact<T: IntBounds>(s: Seq<u8>, skip_zeroes: bool, skip_plus: bool)
    requires
        ({
            let sign = s.len() > 0 && ((skip_plus && s[0] == 43) || (T::spec_signed() && s[0] == 45));
            let body = if sign {
                s.drop_first()
            } else {
                s
            };
            skip_zeroes || T::spec_run_limit().admits(digit_run(body))
        }),
    ensures
        ({
            let neg = s.len() > 0 && !(skip_plus && s[0] == 43) && T::spec_signed() && s[0] == 45;
            let sign = s.len() > 0 && ((skip_plus && s[0] == 43) || (T::spec_signed() && s[0] == 45));
            let body = if sign {
                s.drop_first()
            } else {
                s
            };
            let k: nat = if sign {
                1
            } else {
                0
            };
            let n = digit_run(body);
            let m = digits_value(body.take(n as int));
            let max = if neg {
                T::spec_min_mag()
            } else {
                T::spec_max()
            };
            &&& (spec_parse_prefix::<T>(s, skip_zeroes, skip_plus) is Ok) == (n > 0 && m <= max)
            &&& n > 0 && m <= max ==> spec_parse_prefix::<T>(s, skip_zeroes, skip_plus) == Ok::<
                (int, nat),
                SpecError,
            >((if neg {
                -m
            } else {
                m
            }, k + n))
        }),
{
    T::lemma_bounds();
    law_prefix_full_exact(
        s,
        T::spec_max(),
        T::spec_min_mag(),
        T::spec_run_limit(),
        T::spec_signed(),
        skip_zeroes,
        skip_plus,
    );
}

/// `law_neg_prefix_exact` for each supported signed type: `parse_prefix_neg`
/// succeeds exactly when the input starts with a digit and the value of its
/// digit run is at most the magnitude of the type's smallest value, and then
/// gives the negated value and the run's length.
pub proof fn law_parse_prefix_neg_exact<T: IntBounds>(b: Seq<u8>, skip_zeroes: bool)
    requires
        skip_zeroes || T::spec_run_limit().admits(digit_run(b)),
    ensures
        (negated_value(spec_prefix(b, T::spec_min_mag(), T::spec_run_limit(), skip_zeroes)) is Ok)
            == (digit_run(b) > 0 && digits_value(b.take(digit_run(b) as int)) <= T::spec_min_mag()),
        digit_run(b) > 0 && digits_value(b.take(digit_run(b) as int)) <= T::spec_min_mag()
            ==> negated_value(spec_prefix(b, T::spec_min_mag(), T::spec_run_limit(), skip_zeroes))
            == Ok::<(int, nat), SpecError>((-digits_value(b.take(digit_run(b) as int)), digit_run(b))),
{
    T::lemma_bounds();
    law_neg_prefix_exact(b, T::spec_min_mag(), T::spec_run_limit(), skip_zeroes);
}

/// A whole-input read with a sign succeeds exactly when, after a sign that
/// the read accepts, the rest of the input is one or more digits whose value
/// is within the bound for that sign; it then gives that value, negated
/// after a `'-'`, when the limit leaves room for the digits of both bounds,
/// admits fifteen digits, and (without zero skipping) admits the digits.
pub proof fn law_full_exact(
    s: Seq<u8>,
    pos_max: int,
    neg_max: int,
    limit: RunLimit,
    signed: bool,
    wide: bool,
    skip_zeroes: bool,
    skip_plus: bool,
)
    requires
        limit.covers(pos_max),
        limit.covers(neg_max),
        limit.admits(15),
        ({
            let sign = s.len() > 0 && ((skip_plus && s[0] == 43) || (signed && s[0] == 45));
            let body = if sign {
                s.drop_first()
            } else {
                s
            };
            skip_zeroes || limit.admits(body.len())
        }),
    ensures
        ({
            let neg = s.len() > 0 && !(skip_plus && s[0] == 43) && signed && s[0] == 45;
            let sign = s.len() > 0 && ((skip_plus && s[0] == 43) || (signed && s[0] == 45));
            let body = if sign {
                s.drop_first()
            } else {
                s
            };
            let m = digits_value(body);
            let max = if neg {
                neg_max
            } else {
                pos_max
            };
            ok_value(spec_parse_full(s, pos_max, neg_max, limit, signed, wide, skip_zeroes, skip_plus))
                == if body.len() > 0 && all_digits(body) && m <= max {
                Some(
                    if neg {
                        -m
                    } else {
                        m
                    },
                )
            } else {
                None
            }
        }),
{
    if s.len() > 0 {
        if (skip_plus && s[0] == 43) || (signed && s[0] == 45) {
            law_checked_exact(s.drop_first(), pos_max, limit, skip_zeroes, wide);
            law_checked_exact(s.drop_first(), neg_max, limit, skip_zeroes, wide);
        } else {
            law_checked_exact(s, pos_max, limit, skip_zeroes, wide);
        }
    }
}

/// `law_full_exact` for each supported type: `parse` (and the whole-input
/// reads with skipping) succeed exactly when the input after an accepted
/// sign is one or more digits whose value is within the type's bound for
/// that sign, and then give that value.
pub proof fn law_parse_exact<T: IntBounds>(s: Seq<u8>, skip_zeroes: bool, skip_plus: bool)
    requires
        ({
            let sign = s.len() > 0 && ((skip_plus && s[0] == 43) || (T::spec_signed() && s[0] == 45));
            let body = if sign {
                s.drop_first()
            } else {
                s
            };
            skip_zeroes || T::spec_run_limit().admits(body.len())
        }),
    ensures
        ({
            let neg = s.len() > 0 && !(skip_plus && s[0] == 43) && T::spec_signed() && s[0] == 45;
            let sign = s.len() > 0 && ((skip_plus && s[0] == 43) || (T::spec_signed() && s[0] == 45));
            let body = if sign {
                s.drop_first()
            } else {
                s
            };
            let m = digits_value(body);
            let max = if neg {
                T::spec_min_mag()
            } else {
                T::spec_max()
            };
            ok_value(spec_parse::<T>(s, skip_zeroes, skip_plus)) == if body.len() > 0 && all_digits(
                body,
            ) && m <= max {
                Some(
                    if neg {
                        -m
                    } else {
                        m
                    },
                )
            } else {
                None
            }
        }),
{
    T::lemma_bounds();
    law_full_exact(
        s,
        T::spec_max(),
        T::spec_min_mag(),
        T::spec_run_limit(),
        T::spec_signed(),
        T::spec_wide(),
        skip_zeroes,
        skip_plus,
    );
}

} // verus!
