//! Reading digits eight bytes at a time: a word is loaded from the input
//! (first byte in the least significant place), its leading digits are
//! counted with bit tricks, and their value is computed with a few
//! multiplications instead of one per digit.
use vstd::prelude::*;
use vstd::std_specs::bits::{axiom_u64_trailing_zeros, u64_trailing_zeros};
use crate::digits::{
    digit_run, digit_value, digits_value, is_digit, leading_zeros, lemma_digit_run_at,
    lemma_digit_run_bounds, lemma_digit_run_skip, lemma_leading_zeros_at,
};

verus! {

/// Byte `i` of `w`, counting from the least significant one.
pub open spec fn byte_of(w: u64, i: int) -> u64 {
    (w >> ((8 * i) as u64)) & 0xff
}

/// The first `len` bytes of `w`, least significant first: the order in
/// which they stood in the input.
pub open spec fn word_bytes(w: u64, len: nat) -> Seq<u8> {
    Seq::new(len, |i: int| byte_of(w, i) as u8)
}

/// The low four bits of byte `i` of `w`.
pub open spec fn nibble_of(w: u64, i: u64) -> u64 {
    (w >> ((8 * i) as u64)) & 0xf
}

// ----- facts about single words, proved by bit-blasting -----

/// Setting byte `i` of a word whose bytes from `i` on are zero changes that
/// byte only.
proof fn lemma_set_byte(val: u64, b: u64, i: u64, j: u64)
    requires
        i < 8,
        j < 8,
        b < 256,
        val >> ((8 * i) as u64) == 0,
    ensures
        ((val | (b << ((8 * i) as u64))) >> ((8 * j) as u64)) & 0xff == if j == i {
            b
        } else {
            (val >> ((8 * j) as u64)) & 0xff
        },
        i < 7 ==> (val | (b << ((8 * i) as u64))) >> ((8 * (i + 1)) as u64) == 0,
{
    assert(((val | (b << ((8 * i) as u64))) >> ((8 * j) as u64)) & 0xff == if j == i {
        b
    } else {
        (val >> ((8 * j) as u64)) & 0xff
    }) by (bit_vector)
        requires
            i < 8,
            j < 8,
            b < 256,
            val >> ((8 * i) as u64) == 0,
    ;
    assert(i < 7 ==> (val | (b << ((8 * i) as u64))) >> ((8 * (i + 1)) as u64) == 0) by (bit_vector)
        requires
            i < 8,
            b < 256,
            val >> ((8 * i) as u64) == 0,
    ;
}

/// The bytes of a word from byte `i` on are zero when it shifts to zero.
proof fn lemma_high_bytes_zero(val: u64, i: u64, j: u64)
    requires
        i <= j < 8,
        val >> ((8 * i) as u64) == 0,
    ensures
        (val >> ((8 * j) as u64)) & 0xff == 0,
{
    assert((val >> ((8 * j) as u64)) & 0xff == 0) by (bit_vector)
        requires
            i <= j < 8,
            val >> ((8 * i) as u64) == 0,
    ;
}

/// The bit trick that marks the bytes that are not digits: byte `j` of
/// `len_marks(val)` is zero exactly when byte `j` of `val` is a digit,
/// provided the bytes below it are marked zero.
pub open spec fn len_marks(val: u64) -> u64 {
    (((((val + 0x0606_0606_0606_0606u64) as u64) & 0xF0F0_F0F0_F0F0_F0F0u64) >> 4u64) | (val
        & 0xF0F0_F0F0_F0F0_F0F0u64)) ^ 0x3333_3333_3333_3333u64
}

proof fn lemma_len_marks_byte(val: u64, j: u64)
    requires
        j < 8,
        j == 0 || len_marks(val) << ((64 - 8 * j) as u64) == 0,
    ensures
        (((len_marks(val) >> ((8 * j) as u64)) & 0xff) == 0) == (0x30 <= ((val >> ((8 * j) as u64)) & 0xff) <= 0x39),
{
    assert((((len_marks(val) >> ((8 * j) as u64)) & 0xff) == 0) == (0x30 <= ((val >> ((8 * j) as u64)) & 0xff)
        <= 0x39)) by (bit_vector)
        requires
            j < 8,
            j == 0 || len_marks(val) << ((64 - 8 * j) as u64) == 0,
    ;
}

/// What the number of trailing zero bits of a word says about its bytes:
/// with `t` trailing zeroes, the bytes below `t / 8` are zero, and byte
/// `t / 8` (when there is one) is not.
proof fn lemma_trailing_bytes(x: u64, t: u64, j: u64)
    requires
        t <= 64,
        x << ((64 - t) as u64) == 0,
        t < 64 ==> (x >> t) & 1 == 1,
        j < 8,
    ensures
        j < t / 8 ==> (x >> ((8 * j) as u64)) & 0xff == 0,
        j == t / 8 ==> (x >> ((8 * j) as u64)) & 0xff != 0,
        j <= t / 8 ==> (j == 0 || x << ((64 - 8 * j) as u64) == 0),
{
    assert(j < t / 8 ==> (x >> ((8 * j) as u64)) & 0xff == 0) by (bit_vector)
        requires
            t <= 64,
            x << ((64 - t) as u64) == 0,
            j < 8,
    ;
    assert(j == t / 8 ==> (x >> ((8 * j) as u64)) & 0xff != 0) by (bit_vector)
        requires
            t <= 64,
            t < 64 ==> (x >> t) & 1 == 1,
            j < 8,
    ;
    assert(j <= t / 8 ==> (j == 0 || x << ((64 - 8 * j) as u64) == 0)) by (bit_vector)
        requires
            t <= 64,
            x << ((64 - t) as u64) == 0,
            j < 8,
    ;
}

// ----- loading and measuring a word -----

/// Loads the first eight bytes of `s` (fewer when `s` is shorter; the rest
/// are zero) into a word, the first byte least significant.
pub fn load_8(s: &[u8]) -> (val: u64)
    ensures
        forall|i: int|
            0 <= i < 8 ==> #[trigger] byte_of(val, i) == if i < s@.len() {
                s@[i] as u64
            } else {
                0
            },
{
    let k: usize = if s.len() < 8 {
        s.len()
    } else {
        8
    };
    let mut val: u64 = 0;
    let mut i: usize = 0;
    assert(val >> 0u64 == 0) by (bit_vector)
        requires
            val == 0,
    ;
    while i < k
        invariant
            i <= k <= 8,
            k <= s@.len(),
            k == s@.len() || k == 8,
            i < 8 ==> val >> ((8 * i) as u64) as u64 == 0,
            forall|j: int| 0 <= j < i ==> #[trigger] byte_of(val, j) == s@[j],
        decreases k - i,
    {
        let b = s[i] as u64;
        proof {
            assert forall|j: int| 0 <= j < i + 1 implies #[trigger] byte_of(
                val | (b << ((8 * i) as u64)),
                j,
            ) == s@[j] by {
                let j64 = j as u64;
                let i64 = i as u64;
                lemma_set_byte(val, b, i64, j64);
                assert(j64 == j);
                assert((8 * j64) as u64 == (8 * j) as u64);
                assert(((val | (b << ((8 * i64) as u64))) >> ((8 * j64) as u64)) & 0xff == if j64 == i64 {
                    b
                } else {
                    (val >> ((8 * j64) as u64)) & 0xff
                });
                if j < i {
                    assert(byte_of(val, j) == s@[j]);
                }
            }
            lemma_set_byte(val, b, i as u64, 0);
        }
        val = val | (b << ((8 * i) as u64));
        i = i + 1;
    }
    proof {
        assert forall|j: int| 0 <= j < 8 implies #[trigger] byte_of(val, j) == if j < s@.len() {
            s@[j] as u64
        } else {
            0
        } by {
            if j >= k {
                lemma_high_bytes_zero(val, k as u64, j as u64);
            }
        }
    }
    val
}

/// The number of digits at the start of the bytes of `val` (at most 8).
pub fn check_len_8(val: u64) -> (len: u32)
    ensures
        len <= 8,
        forall|j: int| 0 <= j < len ==> 48 <= #[trigger] byte_of(val, j) <= 57,
        len < 8 ==> !(48 <= byte_of(val, len as int) <= 57),
{
    let high = (val.wrapping_add(0x0606_0606_0606_0606) & 0xF0F0_F0F0_F0F0_F0F0) >> 4;
    let low = val & 0xF0F0_F0F0_F0F0_F0F0;
    let res = (high | low) ^ 0x3333_3333_3333_3333;
    let t = res.trailing_zeros();
    let len = t / 8;
    proof {
        assert(res == len_marks(val)) by (bit_vector)
            requires
                high == (((if val + 0x0606_0606_0606_0606 > u64::MAX {
                    (val + 0x0606_0606_0606_0606 - 0x1_0000_0000_0000_0000) as u64
                } else {
                    (val + 0x0606_0606_0606_0606) as u64
                }) & 0xF0F0_F0F0_F0F0_F0F0) >> 4),
                low == val & 0xF0F0_F0F0_F0F0_F0F0,
                res == (high | low) ^ 0x3333_3333_3333_3333,
        ;
        axiom_u64_trailing_zeros(res);
        let t64 = t as u64;
        assert forall|j: int| 0 <= j < len implies 48 <= #[trigger] byte_of(val, j) <= 57 by {
            lemma_trailing_bytes(res, t64, j as u64);
            lemma_len_marks_byte(val, j as u64);
        }
        if len < 8 {
            lemma_trailing_bytes(res, t64, len as u64);
            lemma_len_marks_byte(val, len as u64);
        }
    }
    len
}

/// The number of `'0'` bytes at the start of the bytes of `val` (at most 8).
pub fn len_zeroes(val: u64) -> (z: u32)
    ensures
        z <= 8,
        forall|j: int| 0 <= j < z ==> #[trigger] byte_of(val, j) == 48,
        z < 8 ==> byte_of(val, z as int) != 48,
{
    let xor = val ^ 0x30303030_30303030;
    let t = xor.trailing_zeros();
    let z = t / 8;
    proof {
        axiom_u64_trailing_zeros(xor);
        let t64 = t as u64;
        assert forall|j: int| 0 <= j < z implies #[trigger] byte_of(val, j) == 48 by {
            let j64 = j as u64;
            lemma_trailing_bytes(xor, t64, j64);
            assert(((xor >> ((8 * j64) as u64)) & 0xff == 0) == ((val >> ((8 * j64) as u64)) & 0xff == 0x30))
                by (bit_vector)
                requires
                    xor == val ^ 0x30303030_30303030,
                    j64 < 8,
            ;
        }
        if z < 8 {
            let j64 = z as u64;
            lemma_trailing_bytes(xor, t64, j64);
            assert(((xor >> ((8 * j64) as u64)) & 0xff == 0) == ((val >> ((8 * j64) as u64)) & 0xff == 0x30))
                by (bit_vector)
                requires
                    xor == val ^ 0x30303030_30303030,
                    j64 < 8,
            ;
        }
    }
    z
}

// ----- the value of eight digits at once -----

/// Shifting a word left by `64 - 8 * len` bytes-worth moves its first `len`
/// bytes to the top and fills the bottom with zero bytes.
proof fn lemma_shift_nibble(val: u64, len: u64, i: u64)
    requires
        1 <= len <= 8,
        i < 8,
    ensures
        nibble_of(val << ((64 - 8 * len) as u64), i) == if i + len >= 8 {
            nibble_of(val, (i + len - 8) as u64)
        } else {
            0
        },
{
    assert(nibble_of(val << ((64 - 8 * len) as u64), i) == if i + len >= 8 {
        nibble_of(val, (i + len - 8) as u64)
    } else {
        0
    }) by (bit_vector)
        requires
            1 <= len <= 8,
            i < 8,
    ;
}

/// The low four bits of a digit byte are its value.
proof fn lemma_digit_nibble(val: u64, k: u64)
    requires
        k < 8,
        48 <= (val >> ((8 * k) as u64)) & 0xff <= 57,
    ensures
        nibble_of(val, k) == ((val >> ((8 * k) as u64)) & 0xff) - 48,
{
    assert(nibble_of(val, k) == ((val >> ((8 * k) as u64)) & 0xff) - 48) by (bit_vector)
        requires
            k < 8,
            48 <= (val >> ((8 * k) as u64)) & 0xff <= 57,
    ;
}

/// Keeping the low four bits of each byte leaves the eight nibbles, one per
/// byte.
proof fn lemma_nibbles_8(w: u64)
    ensures
        w & 0x0F0F_0F0F_0F0F_0F0F == nibble_of(w, 0) | (nibble_of(w, 1) << 8u64) | (nibble_of(w, 2)
            << 16u64) | (nibble_of(w, 3) << 24u64) | (nibble_of(w, 4) << 32u64) | (nibble_of(w, 5)
            << 40u64) | (nibble_of(w, 6) << 48u64) | (nibble_of(w, 7) << 56u64),
{
    assert(w & 0x0F0F_0F0F_0F0F_0F0F == ((w >> 0u64) & 0xf) | (((w >> 8u64) & 0xf) << 8u64) | (((w
        >> 16u64) & 0xf) << 16u64) | (((w >> 24u64) & 0xf) << 24u64) | (((w >> 32u64) & 0xf)
        << 32u64) | (((w >> 40u64) & 0xf) << 40u64) | (((w >> 48u64) & 0xf) << 48u64) | (((w
        >> 56u64) & 0xf) << 56u64)) by (bit_vector);
}

/// First multiplication: neighbouring digits are combined into two-digit
/// numbers, one per 16-bit lane.
proof fn lemma_swar8_stage1(
    m: u64,
    a0: u64,
    a1: u64,
    a2: u64,
    a3: u64,
    a4: u64,
    a5: u64,
    a6: u64,
    a7: u64,
)
    requires
        a0 <= 9 && a1 <= 9 && a2 <= 9 && a3 <= 9 && a4 <= 9 && a5 <= 9 && a6 <= 9 && a7 <= 9,
        m == a0 | (a1 << 8u64) | (a2 << 16u64) | (a3 << 24u64) | (a4 << 32u64) | (a5 << 40u64) | (a6
            << 48u64) | (a7 << 56u64),
    ensures
        (((m * 0xA01) as u64 >> 8u64) & 0x00FF_00FF_00FF_00FF) == ((a0 * 10 + a1) as u64) | (((a2
            * 10 + a3) as u64) << 16u64) | (((a4 * 10 + a5) as u64) << 32u64) | (((a6 * 10
            + a7) as u64) << 48u64),
{
    assert((((m * 0xA01) as u64 >> 8u64) & 0x00FF_00FF_00FF_00FF) == ((a0 * 10 + a1) as u64) | (((a2
        * 10 + a3) as u64) << 16u64) | (((a4 * 10 + a5) as u64) << 32u64) | (((a6 * 10
        + a7) as u64) << 48u64)) by (bit_vector)
        requires
            a0 <= 9 && a1 <= 9 && a2 <= 9 && a3 <= 9 && a4 <= 9 && a5 <= 9 && a6 <= 9 && a7 <= 9,
            m == a0 | (a1 << 8u64) | (a2 << 16u64) | (a3 << 24u64) | (a4 << 32u64) | (a5 << 40u64)
                | (a6 << 48u64) | (a7 << 56u64),
    ;
}

/// Second multiplication: neighbouring two-digit numbers are combined into
/// four-digit numbers, one per 32-bit lane.
proof fn lemma_swar8_stage2(m: u64, a: u64, b: u64, c: u64, d: u64)
    requires
        a <= 99 && b <= 99 && c <= 99 && d <= 99,
        m == a | (b << 16u64) | (c << 32u64) | (d << 48u64),
    ensures
        (((m * 0x64_0001) as u64 >> 16u64) & 0x0000_FFFF_0000_FFFF) == ((a * 100 + b) as u64) | (((c
            * 100 + d) as u64) << 32u64),
{
    assert((((m * 0x64_0001) as u64 >> 16u64) & 0x0000_FFFF_0000_FFFF) == ((a * 100 + b) as u64) | (((c
        * 100 + d) as u64) << 32u64)) by (bit_vector)
        requires
            a <= 99 && b <= 99 && c <= 99 && d <= 99,
            m == a | (b << 16u64) | (c << 32u64) | (d << 48u64),
    ;
}

/// Third multiplication: the two four-digit numbers are combined.
proof fn lemma_swar8_stage3(m: u64, x: u64, y: u64)
    requires
        x <= 9999 && y <= 9999,
        m == x | (y << 32u64),
    ensures
        ((m * 0x2710_0000_0001) as u64 >> 32u64) == x * 10000 + y,
{
    assert(((m * 0x2710_0000_0001) as u64 >> 32u64) == x * 10000 + y) by (bit_vector)
        requires
            x <= 9999 && y <= 9999,
            m == x | (y << 32u64),
    ;
}

/// One more byte of a word read as digits: the value is multiplied by ten
/// and the digit added.
pub proof fn lemma_word_value_step(w: u64, k: nat)
    ensures
        digits_value(word_bytes(w, k + 1)) == digits_value(word_bytes(w, k)) * 10 + digit_value(
            byte_of(w, k as int) as u8,
        ),
{
    assert(word_bytes(w, k + 1).drop_last() =~= word_bytes(w, k));
}

/// The nibbles of the first `len` bytes of `val`, once moved to the top of
/// the word, are digits whose value (most significant first) is the value of
/// those bytes.
proof fn lemma_shifted_digits(val: u64, len: u64)
    requires
        1 <= len <= 8,
        forall|j: int| 0 <= j < len ==> 48 <= #[trigger] byte_of(val, j) <= 57,
    ensures
        ({
            let w = val << ((64 - 8 * len) as u64);
            &&& forall|i: u64| i < 8 ==> #[trigger] nibble_of(w, i) <= 9
            &&& nibble_of(w, 0) * 10000000 + nibble_of(w, 1) * 1000000 + nibble_of(w, 2) * 100000
                + nibble_of(w, 3) * 10000 + nibble_of(w, 4) * 1000 + nibble_of(w, 5) * 100
                + nibble_of(w, 6) * 10 + nibble_of(w, 7) == digits_value(word_bytes(val, len as nat))
        }),
{
    let w = val << ((64 - 8 * len) as u64);
    assert forall|k: u64| k < len implies #[trigger] nibble_of(val, k) == byte_of(val, k as int) - 48
        && nibble_of(val, k) <= 9 by {
        assert(48 <= byte_of(val, k as int) <= 57);
        lemma_digit_nibble(val, k);
    }
    assert forall|i: u64| i < 8 implies #[trigger] nibble_of(w, i) == if i + len >= 8 {
        nibble_of(val, (i + len - 8) as u64)
    } else {
        0
    } by {
        lemma_shift_nibble(val, len, i);
    }
    assert forall|i: u64| i < 8 implies #[trigger] nibble_of(w, i) <= 9 by {
        if i + len >= 8 {
            assert(nibble_of(val, (i + len - 8) as u64) <= 9);
        }
    }
    lemma_word_value_step(val, 0);
    lemma_word_value_step(val, 1);
    lemma_word_value_step(val, 2);
    lemma_word_value_step(val, 3);
    lemma_word_value_step(val, 4);
    lemma_word_value_step(val, 5);
    lemma_word_value_step(val, 6);
    lemma_word_value_step(val, 7);
    assert(word_bytes(val, 0) =~= Seq::<u8>::empty());
    let b0 = nibble_of(val, 0);
    let b1 = nibble_of(val, 1);
    let b2 = nibble_of(val, 2);
    let b3 = nibble_of(val, 3);
    let b4 = nibble_of(val, 4);
    let b5 = nibble_of(val, 5);
    let b6 = nibble_of(val, 6);
    let b7 = nibble_of(val, 7);
    let v1 = digits_value(word_bytes(val, 1));
    let v2 = digits_value(word_bytes(val, 2));
    let v3 = digits_value(word_bytes(val, 3));
    let v4 = digits_value(word_bytes(val, 4));
    let v5 = digits_value(word_bytes(val, 5));
    let v6 = digits_value(word_bytes(val, 6));
    let v7 = digits_value(word_bytes(val, 7));
    let v8 = digits_value(word_bytes(val, 8));
    assert(v1 == b0);
    if len >= 2 {
        assert(v2 == v1 * 10 + b1);
    }
    if len >= 3 {
        assert(v3 == v2 * 10 + b2);
    }
    if len >= 4 {
        assert(v4 == v3 * 10 + b3);
    }
    if len >= 5 {
        assert(v5 == v4 * 10 + b4);
    }
    if len >= 6 {
        assert(v6 == v5 * 10 + b5);
    }
    if len >= 7 {
        assert(v7 == v6 * 10 + b6);
    }
    if len >= 8 {
        assert(v8 == v7 * 10 + b7);
    }
    assert(nibble_of(w, 0) == if len >= 8 { b0 } else { 0 });
    assert(nibble_of(w, 1) == if len >= 8 { b1 } else if len >= 7 { b0 } else { 0 });
    assert(nibble_of(w, 2) == if len >= 8 { b2 } else if len >= 7 { b1 } else if len >= 6 { b0 } else { 0 });
    assert(nibble_of(w, 3) == if len >= 8 { b3 } else if len >= 7 { b2 } else if len >= 6 { b1 } else if len >= 5 { b0 } else { 0 });
    assert(nibble_of(w, 4) == if len >= 8 { b4 } else if len >= 7 { b3 } else if len >= 6 { b2 } else if len >= 5 { b1 } else if len >= 4 { b0 } else { 0 });
    assert(nibble_of(w, 5) == if len >= 8 { b5 } else if len >= 7 { b4 } else if len >= 6 { b3 } else if len >= 5 { b2 } else if len >= 4 { b1 } else if len >= 3 { b0 } else { 0 });
    assert(nibble_of(w, 6) == if len >= 8 { b6 } else if len >= 7 { b5 } else if len >= 6 { b4 } else if len >= 5 { b3 } else if len >= 4 { b2 } else if len >= 3 { b1 } else if len >= 2 { b0 } else { 0 });
    assert(nibble_of(w, 7) == if len >= 8 { b7 } else if len >= 7 { b6 } else if len >= 6 { b5 } else if len >= 5 { b4 } else if len >= 4 { b3 } else if len >= 3 { b2 } else if len >= 2 { b1 } else { b0 });
}

/// The value of the first `len` bytes of `val`, all of them digits.
pub fn process_8(val: u64, len: u32) -> (r: u64)
    requires
        1 <= len <= 8,
        forall|j: int| 0 <= j < len ==> 48 <= #[trigger] byte_of(val, j) <= 57,
    ensures
        r == digits_value(word_bytes(val, len as nat)),
{
    let ghost len64 = len as u64;
    proof {
        assert(len << 3u32 == len * 8) by (bit_vector)
            requires
                len <= 8,
        ;
    }
    let shift = 64u32.saturating_sub(len << 3);
    let w = val << shift;
    proof {
        assert(w == val << ((64 - 8 * len64) as u64));
        lemma_shifted_digits(val, len64);
    }
    let m0 = w & 0x0F0F_0F0F_0F0F_0F0F;
    let ghost a0 = nibble_of(w, 0);
    let ghost a1 = nibble_of(w, 1);
    let ghost a2 = nibble_of(w, 2);
    let ghost a3 = nibble_of(w, 3);
    let ghost a4 = nibble_of(w, 4);
    let ghost a5 = nibble_of(w, 5);
    let ghost a6 = nibble_of(w, 6);
    let ghost a7 = nibble_of(w, 7);
    proof {
        lemma_nibbles_8(w);
        assert(a0 <= 9 && a1 <= 9 && a2 <= 9 && a3 <= 9 && a4 <= 9 && a5 <= 9 && a6 <= 9 && a7 <= 9) by {
            assert(nibble_of(w, 0) <= 9);
            assert(nibble_of(w, 1) <= 9);
            assert(nibble_of(w, 2) <= 9);
            assert(nibble_of(w, 3) <= 9);
            assert(nibble_of(w, 4) <= 9);
            assert(nibble_of(w, 5) <= 9);
            assert(nibble_of(w, 6) <= 9);
            assert(nibble_of(w, 7) <= 9);
        }
        lemma_swar8_stage1(m0, a0, a1, a2, a3, a4, a5, a6, a7);
        assert(m0.wrapping_mul(0xA01) == (m0 * 0xA01) as u64) by (bit_vector)
            requires
                m0.wrapping_mul(0xA01) == ((m0 * 0xA01) % 0x1_0000_0000_0000_0000) as u64,
        ;
    }
    let v1 = m0.wrapping_mul(0xA01) >> 8;
    let m1 = v1 & 0x00FF_00FF_00FF_00FF;
    proof {
        lemma_swar8_stage2(
            m1,
            (a0 * 10 + a1) as u64,
            (a2 * 10 + a3) as u64,
            (a4 * 10 + a5) as u64,
            (a6 * 10 + a7) as u64,
        );
        assert(m1.wrapping_mul(0x64_0001) == (m1 * 0x64_0001) as u64) by (bit_vector)
            requires
                m1.wrapping_mul(0x64_0001) == ((m1 * 0x64_0001) % 0x1_0000_0000_0000_0000) as u64,
        ;
    }
    let v2 = m1.wrapping_mul(0x64_0001) >> 16;
    let m2 = v2 & 0x0000_FFFF_0000_FFFF;
    proof {
        lemma_swar8_stage3(
            m2,
            ((a0 * 10 + a1) * 100 + a2 * 10 + a3) as u64,
            ((a4 * 10 + a5) * 100 + a6 * 10 + a7) as u64,
        );
        assert(m2.wrapping_mul(0x2710_0000_0001) == (m2 * 0x2710_0000_0001) as u64) by (bit_vector)
            requires
                m2.wrapping_mul(0x2710_0000_0001) == ((m2 * 0x2710_0000_0001)
                    % 0x1_0000_0000_0000_0000) as u64,
        ;
    }
    m2.wrapping_mul(0x2710_0000_0001) >> 32
}

// ----- the value of sixteen digits at once -----

/// Byte `i` of the 128-bit word `w`, counting from the least significant.
pub open spec fn byte_of_128(w: u128, i: int) -> u128 {
    (w >> ((8 * i) as u128)) & 0xff
}

/// The first `len` bytes of the 128-bit word `w`, least significant first.
pub open spec fn word_bytes_128(w: u128, len: nat) -> Seq<u8> {
    Seq::new(len, |i: int| byte_of_128(w, i) as u8)
}

/// The low four bits of byte `i` of the 128-bit word `w`.
pub open spec fn nibble_of_128(w: u128, i: u128) -> u128 {
    (w >> (8 * i)) & 0xf
}

proof fn lemma_shift_nibble_128(val: u128, len: u128, i: u128)
    requires
        1 <= len <= 16,
        i < 16,
    ensures
        nibble_of_128(val << ((128 - 8 * len) as u128), i) == if i + len >= 16 {
            nibble_of_128(val, (i + len - 16) as u128)
        } else {
            0
        },
{
    assert(nibble_of_128(val << ((128 - 8 * len) as u128), i) == if i + len >= 16 {
        nibble_of_128(val, (i + len - 16) as u128)
    } else {
        0
    }) by (bit_vector)
        requires
            1 <= len <= 16,
            i < 16,
    ;
}

proof fn lemma_digit_nibble_128(val: u128, k: u128)
    requires
        k < 16,
        48 <= (val >> ((8 * k) as u128)) & 0xff <= 57,
    ensures
        nibble_of_128(val, k) == ((val >> ((8 * k) as u128)) & 0xff) - 48,
{
    assert(nibble_of_128(val, k) == ((val >> ((8 * k) as u128)) & 0xff) - 48) by (bit_vector)
        requires
            k < 16,
            48 <= (val >> ((8 * k) as u128)) & 0xff <= 57,
    ;
}

proof fn lemma_nibbles_16(w: u128)
    ensures
        w & 0x0F0F_0F0F_0F0F_0F0F_0F0F_0F0F_0F0F_0F0F == nibble_of_128(w, 0) | (nibble_of_128(w, 1) << 8u128) | (nibble_of_128(w, 2) << 16u128) | (nibble_of_128(w, 3) << 24u128) | (nibble_of_128(w, 4) << 32u128) | (nibble_of_128(w, 5) << 40u128) | (nibble_of_128(w, 6) << 48u128) | (nibble_of_128(w, 7) << 56u128) | (nibble_of_128(w, 8) << 64u128) | (nibble_of_128(w, 9) << 72u128) | (nibble_of_128(w, 10) << 80u128) | (nibble_of_128(w, 11) << 88u128) | (nibble_of_128(w, 12) << 96u128) | (nibble_of_128(w, 13) << 104u128) | (nibble_of_128(w, 14) << 112u128) | (nibble_of_128(w, 15) << 120u128),
{
    assert(w & 0x0F0F_0F0F_0F0F_0F0F_0F0F_0F0F_0F0F_0F0F == ((w >> 0u128) & 0xf) | (((w >> 8u128) & 0xf) << 8u128) | (((w >> 16u128) & 0xf) << 16u128) | (((w >> 24u128) & 0xf) << 24u128) | (((w >> 32u128) & 0xf) << 32u128) | (((w >> 40u128) & 0xf) << 40u128) | (((w >> 48u128) & 0xf) << 48u128) | (((w >> 56u128) & 0xf) << 56u128) | (((w >> 64u128) & 0xf) << 64u128) | (((w >> 72u128) & 0xf) << 72u128) | (((w >> 80u128) & 0xf) << 80u128) | (((w >> 88u128) & 0xf) << 88u128) | (((w >> 96u128) & 0xf) << 96u128) | (((w >> 104u128) & 0xf) << 104u128) | (((w >> 112u128) & 0xf) << 112u128) | (((w >> 120u128) & 0xf) << 120u128)) by (bit_vector);
}

proof fn lemma_swar16_stage1(m: u128, a0: u128, a1: u128, a2: u128, a3: u128, a4: u128, a5: u128, a6: u128, a7: u128, a8: u128, a9: u128, a10: u128, a11: u128, a12: u128, a13: u128, a14: u128, a15: u128)
    requires
        a0 <= 9 && a1 <= 9 && a2 <= 9 && a3 <= 9 && a4 <= 9 && a5 <= 9 && a6 <= 9 && a7 <= 9 && a8 <= 9 && a9 <= 9 && a10 <= 9 && a11 <= 9 && a12 <= 9 && a13 <= 9 && a14 <= 9 && a15 <= 9,
        m == a0 | (a1 << 8u128) | (a2 << 16u128) | (a3 << 24u128) | (a4 << 32u128) | (a5 << 40u128) | (a6 << 48u128) | (a7 << 56u128) | (a8 << 64u128) | (a9 << 72u128) | (a10 << 80u128) | (a11 << 88u128) | (a12 << 96u128) | (a13 << 104u128) | (a14 << 112u128) | (a15 << 120u128),
    ensures
        (((m * 0xA01) as u128 >> 8u128) & 0x00FF_00FF_00FF_00FF_00FF_00FF_00FF_00FF) == ((a0 * 10 + a1) as u128) | (((a2 * 10 + a3) as u128) << 16u128) | (((a4 * 10 + a5) as u128) << 32u128) | (((a6 * 10 + a7) as u128) << 48u128) | (((a8 * 10 + a9) as u128) << 64u128) | (((a10 * 10 + a11) as u128) << 80u128) | (((a12 * 10 + a13) as u128) << 96u128) | (((a14 * 10 + a15) as u128) << 112u128),
{
    assert((((m * 0xA01) as u128 >> 8u128) & 0x00FF_00FF_00FF_00FF_00FF_00FF_00FF_00FF) == ((a0 * 10 + a1) as u128) | (((a2 * 10 + a3) as u128) << 16u128) | (((a4 * 10 + a5) as u128) << 32u128) | (((a6 * 10 + a7) as u128) << 48u128) | (((a8 * 10 + a9) as u128) << 64u128) | (((a10 * 10 + a11) as u128) << 80u128) | (((a12 * 10 + a13) as u128) << 96u128) | (((a14 * 10 + a15) as u128) << 112u128)) by (bit_vector)
        requires
            a0 <= 9 && a1 <= 9 && a2 <= 9 && a3 <= 9 && a4 <= 9 && a5 <= 9 && a6 <= 9 && a7 <= 9 && a8 <= 9 && a9 <= 9 && a10 <= 9 && a11 <= 9 && a12 <= 9 && a13 <= 9 && a14 <= 9 && a15 <= 9,
            m == a0 | (a1 << 8u128) | (a2 << 16u128) | (a3 << 24u128) | (a4 << 32u128) | (a5 << 40u128) | (a6 << 48u128) | (a7 << 56u128) | (a8 << 64u128) | (a9 << 72u128) | (a10 << 80u128) | (a11 << 88u128) | (a12 << 96u128) | (a13 << 104u128) | (a14 << 112u128) | (a15 << 120u128),
    ;
}

proof fn lemma_swar16_stage2(m: u128, a: u128, b: u128, c: u128, d: u128, e: u128, f: u128, g: u128, h: u128)
    requires
        a <= 99 && b <= 99 && c <= 99 && d <= 99 && e <= 99 && f <= 99 && g <= 99 && h <= 99,
        m == a | (b << 16u128) | (c << 32u128) | (d << 48u128) | (e << 64u128) | (f << 80u128) | (g << 96u128) | (h << 112u128),
    ensures
        (((m * 0x64_0001) as u128 >> 16u128) & 0x0000_FFFF_0000_FFFF_0000_FFFF_0000_FFFF) == ((a * 100 + b) as u128) | (((c * 100 + d) as u128) << 32u128) | (((e * 100 + f) as u128) << 64u128) | (((g * 100 + h) as u128) << 96u128),
{
    assert((((m * 0x64_0001) as u128 >> 16u128) & 0x0000_FFFF_0000_FFFF_0000_FFFF_0000_FFFF) == ((a * 100 + b) as u128) | (((c * 100 + d) as u128) << 32u128) | (((e * 100 + f) as u128) << 64u128) | (((g * 100 + h) as u128) << 96u128)) by (bit_vector)
        requires
            a <= 99 && b <= 99 && c <= 99 && d <= 99 && e <= 99 && f <= 99 && g <= 99 && h <= 99,
            m == a | (b << 16u128) | (c << 32u128) | (d << 48u128) | (e << 64u128) | (f << 80u128) | (g << 96u128) | (h << 112u128),
    ;
}

proof fn lemma_swar16_stage3(m: u128, a: u128, b: u128, c: u128, d: u128)
    requires
        a <= 9999 && b <= 9999 && c <= 9999 && d <= 9999,
        m == a | (b << 32u128) | (c << 64u128) | (d << 96u128),
    ensures
        (((m * 0x2710_0000_0001) as u128 >> 32u128) & 0x0000_0000_FFFF_FFFF_0000_0000_FFFF_FFFF) == ((a * 10000 + b) as u128) | (((c * 10000 + d) as u128) << 64u128),
{
    assert((((m * 0x2710_0000_0001) as u128 >> 32u128) & 0x0000_0000_FFFF_FFFF_0000_0000_FFFF_FFFF) == ((a * 10000 + b) as u128) | (((c * 10000 + d) as u128) << 64u128)) by (bit_vector)
        requires
            a <= 9999 && b <= 9999 && c <= 9999 && d <= 9999,
            m == a | (b << 32u128) | (c << 64u128) | (d << 96u128),
    ;
}

proof fn lemma_swar16_stage4(m: u128, x: u128, y: u128)
    requires
        x <= 99999999 && y <= 99999999,
        m == x | (y << 64u128),
    ensures
        ((m * 0x5F5_E100_0000_0000_0000_0001) as u128 >> 64u128) == x * 100000000 + y,
{
    assert(((m * 0x5F5_E100_0000_0000_0000_0001) as u128 >> 64u128) == x * 100000000 + y) by (bit_vector)
        requires
            x <= 99999999 && y <= 99999999,
            m == x | (y << 64u128),
    ;
}

pub proof fn lemma_word_value_step_128(w: u128, k: nat)
    ensures
        digits_value(word_bytes_128(w, k + 1)) == digits_value(word_bytes_128(w, k)) * 10 + digit_value(
            byte_of_128(w, k as int) as u8,
        ),
{
    assert(word_bytes_128(w, k + 1).drop_last() =~= word_bytes_128(w, k));
}

proof fn lemma_shifted_digits_128(val: u128, len: u128)
    requires
        1 <= len <= 16,
        forall|j: int| 0 <= j < len ==> 48 <= #[trigger] byte_of_128(val, j) <= 57,
    ensures
        ({
            let w = val << ((128 - 8 * len) as u128);
            &&& forall|i: u128| i < 16 ==> #[trigger] nibble_of_128(w, i) <= 9
            &&& nibble_of_128(w, 0) * 1000000000000000 + nibble_of_128(w, 1) * 100000000000000 + nibble_of_128(w, 2) * 10000000000000 + nibble_of_128(w, 3) * 1000000000000 + nibble_of_128(w, 4) * 100000000000 + nibble_of_128(w, 5) * 10000000000 + nibble_of_128(w, 6) * 1000000000 + nibble_of_128(w, 7) * 100000000 + nibble_of_128(w, 8) * 10000000 + nibble_of_128(w, 9) * 1000000 + nibble_of_128(w, 10) * 100000 + nibble_of_128(w, 11) * 10000 + nibble_of_128(w, 12) * 1000 + nibble_of_128(w, 13) * 100 + nibble_of_128(w, 14) * 10 + nibble_of_128(w, 15) * 1 == digits_value(word_bytes_128(val, len as nat))
        }),
{
    let w = val << ((128 - 8 * len) as u128);
    assert forall|k: u128| k < len implies #[trigger] nibble_of_128(val, k) == byte_of_128(val, k as int) - 48
        && nibble_of_128(val, k) <= 9 by {
        assert(48 <= byte_of_128(val, k as int) <= 57);
        lemma_digit_nibble_128(val, k);
    }
    assert forall|i: u128| i < 16 implies #[trigger] nibble_of_128(w, i) == if i + len >= 16 {
        nibble_of_128(val, (i + len - 16) as u128)
    } else {
        0
    } by {
        lemma_shift_nibble_128(val, len, i);
    }
    assert forall|i: u128| i < 16 implies #[trigger] nibble_of_128(w, i) <= 9 by {
        if i + len >= 16 {
            assert(nibble_of_128(val, (i + len - 16) as u128) <= 9);
        }
    }
    lemma_word_value_step_128(val, 0);
    lemma_word_value_step_128(val, 1);
    lemma_word_value_step_128(val, 2);
    lemma_word_value_step_128(val, 3);
    lemma_word_value_step_128(val, 4);
    lemma_word_value_step_128(val, 5);
    lemma_word_value_step_128(val, 6);
    lemma_word_value_step_128(val, 7);
    lemma_word_value_step_128(val, 8);
    lemma_word_value_step_128(val, 9);
    lemma_word_value_step_128(val, 10);
    lemma_word_value_step_128(val, 11);
    lemma_word_value_step_128(val, 12);
    lemma_word_value_step_128(val, 13);
    lemma_word_value_step_128(val, 14);
    lemma_word_value_step_128(val, 15);
    assert(word_bytes_128(val, 0) =~= Seq::<u8>::empty());
    let b0 = nibble_of_128(val, 0);
    let b1 = nibble_of_128(val, 1);
    let b2 = nibble_of_128(val, 2);
    let b3 = nibble_of_128(val, 3);
    let b4 = nibble_of_128(val, 4);
    let b5 = nibble_of_128(val, 5);
    let b6 = nibble_of_128(val, 6);
    let b7 = nibble_of_128(val, 7);
    let b8 = nibble_of_128(val, 8);
    let b9 = nibble_of_128(val, 9);
    let b10 = nibble_of_128(val, 10);
    let b11 = nibble_of_128(val, 11);
    let b12 = nibble_of_128(val, 12);
    let b13 = nibble_of_128(val, 13);
    let b14 = nibble_of_128(val, 14);
    let b15 = nibble_of_128(val, 15);
    let v1 = digits_value(word_bytes_128(val, 1));
    let v2 = digits_value(word_bytes_128(val, 2));
    let v3 = digits_value(word_bytes_128(val, 3));
    let v4 = digits_value(word_bytes_128(val, 4));
    let v5 = digits_value(word_bytes_128(val, 5));
    let v6 = digits_value(word_bytes_128(val, 6));
    let v7 = digits_value(word_bytes_128(val, 7));
    let v8 = digits_value(word_bytes_128(val, 8));
    let v9 = digits_value(word_bytes_128(val, 9));
    let v10 = digits_value(word_bytes_128(val, 10));
    let v11 = digits_value(word_bytes_128(val, 11));
    let v12 = digits_value(word_bytes_128(val, 12));
    let v13 = digits_value(word_bytes_128(val, 13));
    let v14 = digits_value(word_bytes_128(val, 14));
    let v15 = digits_value(word_bytes_128(val, 15));
    let v16 = digits_value(word_bytes_128(val, 16));
    assert(v1 == b0);
    if len >= 2 {
        assert(v2 == v1 * 10 + b1);
    }
    if len >= 3 {
        assert(v3 == v2 * 10 + b2);
    }
    if len >= 4 {
        assert(v4 == v3 * 10 + b3);
    }
    if len >= 5 {
        assert(v5 == v4 * 10 + b4);
    }
    if len >= 6 {
        assert(v6 == v5 * 10 + b5);
    }
    if len >= 7 {
        assert(v7 == v6 * 10 + b6);
    }
    if len >= 8 {
        assert(v8 == v7 * 10 + b7);
    }
    if len >= 9 {
        assert(v9 == v8 * 10 + b8);
    }
    if len >= 10 {
        assert(v10 == v9 * 10 + b9);
    }
    if len >= 11 {
        assert(v11 == v10 * 10 + b10);
    }
    if len >= 12 {
        assert(v12 == v11 * 10 + b11);
    }
    if len >= 13 {
        assert(v13 == v12 * 10 + b12);
    }
    if len >= 14 {
        assert(v14 == v13 * 10 + b13);
    }
    if len >= 15 {
        assert(v15 == v14 * 10 + b14);
    }
    if len >= 16 {
        assert(v16 == v15 * 10 + b15);
    }
    assert(nibble_of_128(w, 0) == if len >= 16 { b0 } else { 0 });
    assert(nibble_of_128(w, 1) == if len >= 16 { b1 } else if len >= 15 { b0 } else { 0 });
    assert(nibble_of_128(w, 2) == if len >= 16 { b2 } else if len >= 15 { b1 } else if len >= 14 { b0 } else { 0 });
    assert(nibble_of_128(w, 3) == if len >= 16 { b3 } else if len >= 15 { b2 } else if len >= 14 { b1 } else if len >= 13 { b0 } else { 0 });
    assert(nibble_of_128(w, 4) == if len >= 16 { b4 } else if len >= 15 { b3 } else if len >= 14 { b2 } else if len >= 13 { b1 } else if len >= 12 { b0 } else { 0 });
    assert(nibble_of_128(w, 5) == if len >= 16 { b5 } else if len >= 15 { b4 } else if len >= 14 { b3 } else if len >= 13 { b2 } else if len >= 12 { b1 } else if len >= 11 { b0 } else { 0 });
    assert(nibble_of_128(w, 6) == if len >= 16 { b6 } else if len >= 15 { b5 } else if len >= 14 { b4 } else if len >= 13 { b3 } else if len >= 12 { b2 } else if len >= 11 { b1 } else if len >= 10 { b0 } else { 0 });
    assert(nibble_of_128(w, 7) == if len >= 16 { b7 } else if len >= 15 { b6 } else if len >= 14 { b5 } else if len >= 13 { b4 } else if len >= 12 { b3 } else if len >= 11 { b2 } else if len >= 10 { b1 } else if len >= 9 { b0 } else { 0 });
    assert(nibble_of_128(w, 8) == if len >= 16 { b8 } else if len >= 15 { b7 } else if len >= 14 { b6 } else if len >= 13 { b5 } else if len >= 12 { b4 } else if len >= 11 { b3 } else if len >= 10 { b2 } else if len >= 9 { b1 } else if len >= 8 { b0 } else { 0 });
    assert(nibble_of_128(w, 9) == if len >= 16 { b9 } else if len >= 15 { b8 } else if len >= 14 { b7 } else if len >= 13 { b6 } else if len >= 12 { b5 } else if len >= 11 { b4 } else if len >= 10 { b3 } else if len >= 9 { b2 } else if len >= 8 { b1 } else if len >= 7 { b0 } else { 0 });
    assert(nibble_of_128(w, 10) == if len >= 16 { b10 } else if len >= 15 { b9 } else if len >= 14 { b8 } else if len >= 13 { b7 } else if len >= 12 { b6 } else if len >= 11 { b5 } else if len >= 10 { b4 } else if len >= 9 { b3 } else if len >= 8 { b2 } else if len >= 7 { b1 } else if len >= 6 { b0 } else { 0 });
    assert(nibble_of_128(w, 11) == if len >= 16 { b11 } else if len >= 15 { b10 } else if len >= 14 { b9 } else if len >= 13 { b8 } else if len >= 12 { b7 } else if len >= 11 { b6 } else if len >= 10 { b5 } else if len >= 9 { b4 } else if len >= 8 { b3 } else if len >= 7 { b2 } else if len >= 6 { b1 } else if len >= 5 { b0 } else { 0 });
    assert(nibble_of_128(w, 12) == if len >= 16 { b12 } else if len >= 15 { b11 } else if len >= 14 { b10 } else if len >= 13 { b9 } else if len >= 12 { b8 } else if len >= 11 { b7 } else if len >= 10 { b6 } else if len >= 9 { b5 } else if len >= 8 { b4 } else if len >= 7 { b3 } else if len >= 6 { b2 } else if len >= 5 { b1 } else if len >= 4 { b0 } else { 0 });
    assert(nibble_of_128(w, 13) == if len >= 16 { b13 } else if len >= 15 { b12 } else if len >= 14 { b11 } else if len >= 13 { b10 } else if len >= 12 { b9 } else if len >= 11 { b8 } else if len >= 10 { b7 } else if len >= 9 { b6 } else if len >= 8 { b5 } else if len >= 7 { b4 } else if len >= 6 { b3 } else if len >= 5 { b2 } else if len >= 4 { b1 } else if len >= 3 { b0 } else { 0 });
    assert(nibble_of_128(w, 14) == if len >= 16 { b14 } else if len >= 15 { b13 } else if len >= 14 { b12 } else if len >= 13 { b11 } else if len >= 12 { b10 } else if len >= 11 { b9 } else if len >= 10 { b8 } else if len >= 9 { b7 } else if len >= 8 { b6 } else if len >= 7 { b5 } else if len >= 6 { b4 } else if len >= 5 { b3 } else if len >= 4 { b2 } else if len >= 3 { b1 } else if len >= 2 { b0 } else { 0 });
    assert(nibble_of_128(w, 15) == if len >= 16 { b15 } else if len >= 15 { b14 } else if len >= 14 { b13 } else if len >= 13 { b12 } else if len >= 12 { b11 } else if len >= 11 { b10 } else if len >= 10 { b9 } else if len >= 9 { b8 } else if len >= 8 { b7 } else if len >= 7 { b6 } else if len >= 6 { b5 } else if len >= 5 { b4 } else if len >= 4 { b3 } else if len >= 3 { b2 } else if len >= 2 { b1 } else { b0 });
}

/// The value of the first `len` bytes of the 128-bit word `val`, all of them
/// digits (at most sixteen, so the value fits in 64 bits).
pub fn process_16(val: u128, len: u32) -> (r: u64)
    requires
        1 <= len <= 16,
        forall|j: int| 0 <= j < len ==> 48 <= #[trigger] byte_of_128(val, j) <= 57,
    ensures
        r == digits_value(word_bytes_128(val, len as nat)),
{
    let ghost len128 = len as u128;
    proof {
        assert(len << 3u32 == len * 8) by (bit_vector)
            requires
                len <= 16,
        ;
    }
    let shift = 128u32.saturating_sub(len << 3);
    let w = val << shift;
    proof {
        assert(w == val << ((128 - 8 * len128) as u128));
        lemma_shifted_digits_128(val, len128);
    }
    let m0 = w & 0x0F0F_0F0F_0F0F_0F0F_0F0F_0F0F_0F0F_0F0F;
    let ghost a0 = nibble_of_128(w, 0);
    let ghost a1 = nibble_of_128(w, 1);
    let ghost a2 = nibble_of_128(w, 2);
    let ghost a3 = nibble_of_128(w, 3);
    let ghost a4 = nibble_of_128(w, 4);
    let ghost a5 = nibble_of_128(w, 5);
    let ghost a6 = nibble_of_128(w, 6);
    let ghost a7 = nibble_of_128(w, 7);
    let ghost a8 = nibble_of_128(w, 8);
    let ghost a9 = nibble_of_128(w, 9);
    let ghost a10 = nibble_of_128(w, 10);
    let ghost a11 = nibble_of_128(w, 11);
    let ghost a12 = nibble_of_128(w, 12);
    let ghost a13 = nibble_of_128(w, 13);
    let ghost a14 = nibble_of_128(w, 14);
    let ghost a15 = nibble_of_128(w, 15);
    proof {
        lemma_nibbles_16(w);
        assert(a0 <= 9 && a1 <= 9 && a2 <= 9 && a3 <= 9 && a4 <= 9 && a5 <= 9 && a6 <= 9 && a7 <= 9 && a8 <= 9 && a9 <= 9 && a10 <= 9 && a11 <= 9 && a12 <= 9 && a13 <= 9 && a14 <= 9 && a15 <= 9) by {
            assert(nibble_of_128(w, 0) <= 9);
            assert(nibble_of_128(w, 1) <= 9);
            assert(nibble_of_128(w, 2) <= 9);
            assert(nibble_of_128(w, 3) <= 9);
            assert(nibble_of_128(w, 4) <= 9);
            assert(nibble_of_128(w, 5) <= 9);
            assert(nibble_of_128(w, 6) <= 9);
            assert(nibble_of_128(w, 7) <= 9);
            assert(nibble_of_128(w, 8) <= 9);
            assert(nibble_of_128(w, 9) <= 9);
            assert(nibble_of_128(w, 10) <= 9);
            assert(nibble_of_128(w, 11) <= 9);
            assert(nibble_of_128(w, 12) <= 9);
            assert(nibble_of_128(w, 13) <= 9);
            assert(nibble_of_128(w, 14) <= 9);
            assert(nibble_of_128(w, 15) <= 9);
        }
        lemma_swar16_stage1(m0, a0, a1, a2, a3, a4, a5, a6, a7, a8, a9, a10, a11, a12, a13, a14, a15);
        assert(m0.wrapping_mul(0xA01) == (m0 * 0xA01) as u128) by (bit_vector)
            requires
                m0.wrapping_mul(0xA01) == ((m0 * 0xA01) % 0x1_0000_0000_0000_0000_0000_0000_0000_0000int) as u128,
        ;
    }
    let v1 = m0.wrapping_mul(0xA01) >> 8;
    let m1 = v1 & 0x00FF_00FF_00FF_00FF_00FF_00FF_00FF_00FF;
    proof {
        lemma_swar16_stage2(m1, (a0 * 10 + a1) as u128, (a2 * 10 + a3) as u128, (a4 * 10 + a5) as u128, (a6 * 10 + a7) as u128, (a8 * 10 + a9) as u128, (a10 * 10 + a11) as u128, (a12 * 10 + a13) as u128, (a14 * 10 + a15) as u128);
        assert(m1.wrapping_mul(0x64_0001) == (m1 * 0x64_0001) as u128) by (bit_vector)
            requires
                m1.wrapping_mul(0x64_0001) == ((m1 * 0x64_0001) % 0x1_0000_0000_0000_0000_0000_0000_0000_0000int) as u128,
        ;
    }
    let v2 = m1.wrapping_mul(0x64_0001) >> 16;
    let m2 = v2 & 0x0000_FFFF_0000_FFFF_0000_FFFF_0000_FFFF;
    proof {
        lemma_swar16_stage3(m2, ((a0 * 10 + a1) * 100 + (a2 * 10 + a3)) as u128, ((a4 * 10 + a5) * 100 + (a6 * 10 + a7)) as u128, ((a8 * 10 + a9) * 100 + (a10 * 10 + a11)) as u128, ((a12 * 10 + a13) * 100 + (a14 * 10 + a15)) as u128);
        assert(m2.wrapping_mul(0x2710_0000_0001) == (m2 * 0x2710_0000_0001) as u128) by (bit_vector)
            requires
                m2.wrapping_mul(0x2710_0000_0001) == ((m2 * 0x2710_0000_0001) % 0x1_0000_0000_0000_0000_0000_0000_0000_0000int) as u128,
        ;
    }
    let v3 = m2.wrapping_mul(0x2710_0000_0001) >> 32;
    let m3 = v3 & 0x0000_0000_FFFF_FFFF_0000_0000_FFFF_FFFF;
    proof {
        lemma_swar16_stage4(m3, (((a0 * 10 + a1) * 100 + (a2 * 10 + a3)) * 10000 + ((a4 * 10 + a5) * 100 + (a6 * 10 + a7))) as u128, (((a8 * 10 + a9) * 100 + (a10 * 10 + a11)) * 10000 + ((a12 * 10 + a13) * 100 + (a14 * 10 + a15))) as u128);
        assert(m3.wrapping_mul(0x5F5_E100_0000_0000_0000_0001) == (m3 * 0x5F5_E100_0000_0000_0000_0001) as u128) by (bit_vector)
            requires
                m3.wrapping_mul(0x5F5_E100_0000_0000_0000_0001) == ((m3 * 0x5F5_E100_0000_0000_0000_0001) % 0x1_0000_0000_0000_0000_0000_0000_0000_0000int) as u128,
        ;
        assert(digits_value(word_bytes_128(val, len as nat)) < 10000000000000000) by {
            assert(nibble_of_128(w, 0) * 1000000000000000 + nibble_of_128(w, 1) * 100000000000000 + nibble_of_128(w, 2) * 10000000000000 + nibble_of_128(w, 3) * 1000000000000 + nibble_of_128(w, 4) * 100000000000 + nibble_of_128(w, 5) * 10000000000 + nibble_of_128(w, 6) * 1000000000 + nibble_of_128(w, 7) * 100000000 + nibble_of_128(w, 8) * 10000000 + nibble_of_128(w, 9) * 1000000 + nibble_of_128(w, 10) * 100000 + nibble_of_128(w, 11) * 10000 + nibble_of_128(w, 12) * 1000 + nibble_of_128(w, 13) * 100 + nibble_of_128(w, 14) * 10 + nibble_of_128(w, 15) * 1 < 10000000000000000);
        }
    }
    (m3.wrapping_mul(0x5F5_E100_0000_0000_0000_0001) >> 64) as u64
}

// ----- reading the digits at the start of a slice -----

/// A loaded word whose leading digits were counted: the count is the digit
/// run of the input, up to eight, and those bytes are the input's.
proof fn lemma_word_run(s: Seq<u8>, val: u64, k: u32)
    requires
        forall|i: int|
            0 <= i < 8 ==> #[trigger] byte_of(val, i) == if i < s.len() {
                s[i] as u64
            } else {
                0
            },
        k <= 8,
        forall|j: int| 0 <= j < k ==> 48 <= #[trigger] byte_of(val, j) <= 57,
        k < 8 ==> !(48 <= byte_of(val, k as int) <= 57),
    ensures
        k == if digit_run(s) < 8 {
            digit_run(s)
        } else {
            8
        },
        word_bytes(val, k as nat) =~= s.take(k as int),
        forall|j: int| 0 <= j < k ==> is_digit(#[trigger] s[j]),
        k <= s.len(),
{
    assert forall|j: int| 0 <= j < k implies j < s.len() && is_digit(#[trigger] s[j]) by {
        assert(48 <= byte_of(val, j) <= 57);
        if j >= s.len() {
            assert(byte_of(val, j) == 0);
        }
        assert(byte_of(val, j) == s[j] as u64);
    }
    if k < 8 {
        if k > s.len() {
            assert(48 <= byte_of(val, s.len() as int) <= 57);
            assert(byte_of(val, s.len() as int) == 0);
        }
        if k < s.len() {
            assert(byte_of(val, k as int) == s[k as int] as u64);
            assert(!is_digit(s[k as int]));
        }
        lemma_digit_run_at(s, k as int);
    } else {
        lemma_digit_run_bounds(s);
        if digit_run(s) < 8 {
            let r = digit_run(s) as int;
            assert(48 <= byte_of(val, r) <= 57);
            assert(is_digit(s[r]));
        }
    }
    assert forall|j: int| 0 <= j < k implies #[trigger] word_bytes(val, k as nat)[j] == s.take(
        k as int,
    )[j] by {
        assert(48 <= byte_of(val, j) <= 57);
        if j >= s.len() {
            assert(byte_of(val, j) == 0);
        }
        assert(byte_of(val, j) == s[j] as u64);
        assert(word_bytes(val, k as nat)[j] == byte_of(val, j) as u8);
    }
    assert(k <= s.len());
}

/// The bytes of two words put side by side in one 128-bit word.
proof fn lemma_join_bytes(lo: u64, hi: u64, i: u128)
    requires
        i < 16,
    ensures
        ((((hi as u128) << 64u128) | (lo as u128)) >> ((8 * i) as u128)) & 0xff == if i < 8 {
            ((lo >> ((8 * i) as u64)) & 0xff) as u128
        } else {
            ((hi >> ((8 * (i - 8)) as u64)) & 0xff) as u128
        },
{
    assert(((((hi as u128) << 64u128) | (lo as u128)) >> ((8 * i) as u128)) & 0xff == if i < 8 {
        ((lo >> ((8 * i) as u64)) & 0xff) as u128
    } else {
        ((hi >> ((8 * (i - 8)) as u64)) & 0xff) as u128
    }) by (bit_vector)
        requires
            i < 16,
    ;
}

/// The `'0'` bytes that `len_zeroes` counted in a word loaded from `w`,
/// found at offset `at` of `t` (whose earlier bytes are all `'0'`): they end
/// the leading zeroes of `t`, unless the word was all zeroes and `t` ends
/// with it.
proof fn lemma_zero_bytes(t: Seq<u8>, w: Seq<u8>, val: u64, k: u32, at: int)
    requires
        t.len() == 16,
        at == 0 || at == 8,
        w.len() >= 8,
        forall|j: int| 0 <= j < 8 ==> #[trigger] w[j] == t[at + j],
        forall|j: int| 0 <= j < at ==> #[trigger] t[j] == 48,
        forall|i: int|
            0 <= i < 8 ==> #[trigger] byte_of(val, i) == if i < w.len() {
                w[i] as u64
            } else {
                0
            },
        k <= 8,
        forall|j: int| 0 <= j < k ==> #[trigger] byte_of(val, j) == 48,
        k < 8 ==> byte_of(val, k as int) != 48,
        at == 0 ==> k < 8,
    ensures
        leading_zeros(t) == at + k,
{
    assert forall|j: int| 0 <= j < at + k implies #[trigger] t[j] == 48 by {
        if j >= at {
            assert(byte_of(val, j - at) == 48);
            assert(w[j - at] == t[j]);
        }
    }
    if k < 8 {
        assert(byte_of(val, k as int) == w[k as int] as u64);
        assert(w[k as int] == t[at + k]);
    }
    lemma_leading_zeros_at(t, at + k);
}

/// Reads the digits at the start of `s`, sixteen at most, eight bytes at a
/// time: their value and their number. With `CHECK_ZEROES`, when all sixteen
/// bytes are digits, also the number of `'0'` bytes they start with (zero
/// otherwise).
pub fn parse_16_by_8<const CHECK_ZEROES: bool>(s: &[u8]) -> (r: (u64, u32, u32))
    ensures
        r.1 == if digit_run(s@) < 16 {
            digit_run(s@)
        } else {
            16
        },
        r.0 == digits_value(s@.take(r.1 as int)),
        r.2 == if CHECK_ZEROES && r.1 == 16 {
            leading_zeros(s@.take(16))
        } else {
            0
        },
{
    let val = load_8(s);
    let len = check_len_8(val);
    proof {
        lemma_word_run(s@, val, len);
    }
    if len == 0 {
        assert(s@.take(0) =~= Seq::<u8>::empty());
        return (0, 0, 0);
    }
    if len == 1 {
        proof {
            assert(48 <= byte_of(val, 0) <= 57);
            assert(val & 0xF == ((val >> 0u64) & 0xff) - 48) by (bit_vector)
                requires
                    48 <= (val >> 0u64) & 0xff <= 57,
            ;
            lemma_word_value_step(val, 0);
            assert(word_bytes(val, 0) =~= Seq::<u8>::empty());
        }
        return (val & 0xF, 1, 0);
    }
    if len < 8 {
        return (process_8(val, len), len, 0);
    }
    let (_, rest) = s.split_at(8);
    let val_h = load_8(rest);
    let len_h = check_len_8(val_h);
    proof {
        lemma_word_run(rest@, val_h, len_h);
        lemma_digit_run_skip(s@, 8);
        assert(rest@ =~= s@.skip(8));
    }
    let total = 8 + len_h;
    let val_128 = ((val_h as u128) << 64) | val as u128;
    proof {
        assert forall|j: int| 0 <= j < total implies #[trigger] byte_of_128(val_128, j) == s@[j] as u128
            && 48 <= byte_of_128(val_128, j) <= 57 by {
            let i = j as u128;
            lemma_join_bytes(val, val_h, i);
            assert(byte_of_128(val_128, j) == (((((val_h as u128) << 64u128) | (val as u128)) >> ((8
                * i) as u128)) & 0xff));
            if j >= 8 {
                assert(byte_of(val_h, j - 8) == ((val_h >> ((8 * (i - 8)) as u64)) & 0xff));
                assert(byte_of(val_h, j - 8) == rest@[j - 8] as u64);
                assert(48 <= byte_of(val_h, j - 8) <= 57);
            } else {
                assert(byte_of(val, j) == ((val >> ((8 * i) as u64)) & 0xff));
                assert(byte_of(val, j) == s@[j] as u64);
                assert(48 <= byte_of(val, j) <= 57);
            }
        }
        assert(word_bytes_128(val_128, total as nat) =~= s@.take(total as int));
    }
    let zeroes: u32 = if CHECK_ZEROES && total == 16 {
        let low = len_zeroes(val);
        if low == 8 {
            let high = len_zeroes(val_h);
            proof {
                let t = s@.take(16);
                assert forall|j: int| 0 <= j < 8 implies #[trigger] t[j] == 48 by {
                    assert(byte_of(val, j) == 48);
                }
                assert forall|j: int| 0 <= j < 8 implies #[trigger] rest@[j] == t[8 + j] by {}
                lemma_zero_bytes(t, rest@, val_h, high, 8);
            }
            8 + high
        } else {
            proof {
                lemma_zero_bytes(s@.take(16), s@, val, low, 0);
            }
            low
        }
    } else {
        0
    };
    (process_16(val_128, total), total, zeroes)
}

} // verus!
