use atoi_simd::fallback::{check_len_8, len_zeroes, load_8, parse_16_by_8, process_16, process_8};
use atoi_simd::digits::RunLimit;
use atoi_simd::magnitude::{parse_simd, parse_simd_checked_neg};
use atoi_simd::{
    parse, parse_any, parse_any_neg, parse_any_pos, parse_neg, parse_pos, parse_prefix,
    parse_prefix_neg, parse_prefix_pos, parse_skipped, AtoiSimdError, Parse, ParsePos,
};

#[test]
fn empty_inputs() {
    assert_eq!(parse::<u8>(b""), Err(AtoiSimdError::Empty));
    assert_eq!(parse::<u64>(b"abc"), Err(AtoiSimdError::Empty));
    assert_eq!(parse::<i8>(b"-"), Err(AtoiSimdError::Empty));
    assert_eq!(parse::<u8>(b"-1"), Err(AtoiSimdError::Empty));
    assert_eq!(parse::<u8>(b"+1"), Err(AtoiSimdError::Empty));
    assert_eq!(parse_skipped::<u8>(b"+"), Err(AtoiSimdError::Empty));
    assert_eq!(parse_prefix::<i32>(b"x12"), Err(AtoiSimdError::Empty));
}

#[test]
fn size_errors() {
    let forty = [b'1'; 40];
    assert_eq!(parse::<u128>(&forty), Err(AtoiSimdError::Size(40, &forty[..])));
    assert_eq!(parse::<i128>(&forty), Err(AtoiSimdError::Size(40, &forty[..])));
    assert_eq!(parse::<u8>(&forty), Err(AtoiSimdError::Overflow(&forty[..])));
    assert_eq!(parse::<u32>(&forty[..30]), Err(AtoiSimdError::Overflow(&forty[..30])));
    let mut padded = vec![b'0'; 45];
    padded.push(b'1');
    assert_eq!(parse::<u64>(&padded), Err(AtoiSimdError::Size(24, &padded[..])));
    assert_eq!(parse_skipped::<u64>(&padded), Ok(1));
    let mut neg = vec![b'-'];
    neg.extend_from_slice(&forty);
    assert_eq!(parse::<i64>(&neg), Err(AtoiSimdError::Size(24, &forty[..])));
    let one = b"000000000000000000001";
    assert_eq!(parse::<u64>(one), Err(AtoiSimdError::Size(21, &one[..])));
    assert_eq!(parse_skipped::<u64>(one), Ok(1));
    assert_eq!(parse::<u32>(one), Ok(1));
    let long = b"123456789012345678901";
    assert_eq!(parse::<u64>(long), Err(AtoiSimdError::Size(21, &long[..])));
    assert_eq!(parse::<i64>(&long[..20]), Err(AtoiSimdError::Size(20, &long[..20])));
    assert_eq!(parse_neg::<i64>(&long[..20]), Err(AtoiSimdError::Size(20, &long[..20])));
    let nines = b"99999999999999999999";
    assert_eq!(parse::<u64>(nines), Err(AtoiSimdError::Overflow(&nines[..])));
}

#[test]
fn skipping_keeps_accepted() {
    for s in [&b"00000000000000000001"[..], b"0000000000000000000000000000255", b"000123x", b"7"] {
        if let Ok(v) = parse_prefix_pos::<u64>(s) {
            assert_eq!(<u64 as ParsePos>::atoi_simd_parse_prefix_pos::<true>(s), Ok(v));
        }
        if let Ok(v) = parse_prefix_pos::<u8>(s) {
            assert_eq!(<u8 as ParsePos>::atoi_simd_parse_prefix_pos::<true>(s), Ok(v));
        }
    }
    assert_eq!(parse_prefix_pos::<u8>(b"0000000000000000000000000000255"), Ok((255, 31)));
}

#[test]
fn errors_after_skipped_zeroes() {
    let mut text = b"000".to_vec();
    text.extend_from_slice(&[b'1'; 21]);
    assert_eq!(parse_skipped::<u64>(&text), Err(AtoiSimdError::Size(24, &text[3..])));
    let text = b"000099999999999999999999";
    assert_eq!(parse_skipped::<u64>(text), Err(AtoiSimdError::Overflow(&text[4..])));
    assert_eq!(parse::<u64>(text), Err(AtoiSimdError::Size(24, &text[..])));
    let text = b"0256";
    assert_eq!(parse_skipped::<u8>(text), Err(AtoiSimdError::Overflow(&text[..])));
    let text = b"0000000000000000256";
    assert_eq!(parse_skipped::<u8>(text), Err(AtoiSimdError::Overflow(&text[16..])));
    assert_eq!(parse::<u8>(text), Err(AtoiSimdError::Overflow(&text[..])));
    let mut text = vec![b'0'; 50];
    text.extend_from_slice(&[b'9'; 39]);
    assert_eq!(parse_skipped::<u128>(&text), Err(AtoiSimdError::Overflow(&text[50..])));
    text.push(b'9');
    assert_eq!(parse_skipped::<u128>(&text), Err(AtoiSimdError::Size(90, &text[50..])));
}

#[test]
fn overflow_errors() {
    assert_eq!(parse::<u8>(b"256"), Err(AtoiSimdError::Overflow(b"256")));
    assert_eq!(parse::<i8>(b"-129"), Err(AtoiSimdError::Overflow(b"129")));
    assert_eq!(parse::<i8>(b"128"), Err(AtoiSimdError::Overflow(b"128")));
    assert_eq!(parse_prefix::<u16>(b"65536x"), Err(AtoiSimdError::Overflow(b"65536x")));
    assert_eq!(
        parse::<u128>(b"999999999999999999999999999999999999999"),
        Err(AtoiSimdError::Overflow(b"999999999999999999999999999999999999999"))
    );
}

#[test]
fn invalid_errors() {
    assert_eq!(parse::<u32>(b"12a"), Err(AtoiSimdError::Invalid64(12, 2, b"12a")));
    assert_eq!(parse::<i8>(b"-12x"), Err(AtoiSimdError::Invalid64(12, 2, b"12x")));
    assert_eq!(parse::<u128>(b"12a"), Err(AtoiSimdError::Invalid128(12, 2, b"12a")));
    assert_eq!(
        parse::<i128>(b"-170141183460469231731687303715884105728x"),
        Err(AtoiSimdError::Invalid128(
            1 << 127,
            39,
            b"170141183460469231731687303715884105728x"
        ))
    );
    assert_eq!(
        parse::<i64>(b"-9223372036854775808 "),
        Err(AtoiSimdError::Invalid64(1 << 63, 19, b"9223372036854775808 "))
    );
}

#[test]
fn extremes_of_every_type() {
    assert_eq!(parse::<u8>(u8::MAX.to_string().as_bytes()), Ok(u8::MAX));
    assert_eq!(parse::<i8>(i8::MIN.to_string().as_bytes()), Ok(i8::MIN));
    assert_eq!(parse::<u16>(u16::MAX.to_string().as_bytes()), Ok(u16::MAX));
    assert_eq!(parse::<i16>(i16::MIN.to_string().as_bytes()), Ok(i16::MIN));
    assert_eq!(parse::<u32>(u32::MAX.to_string().as_bytes()), Ok(u32::MAX));
    assert_eq!(parse::<i32>(i32::MIN.to_string().as_bytes()), Ok(i32::MIN));
    assert_eq!(parse::<u64>(u64::MAX.to_string().as_bytes()), Ok(u64::MAX));
    assert_eq!(parse::<i64>(i64::MIN.to_string().as_bytes()), Ok(i64::MIN));
    assert_eq!(parse::<u128>(u128::MAX.to_string().as_bytes()), Ok(u128::MAX));
    assert_eq!(parse::<i128>(i128::MIN.to_string().as_bytes()), Ok(i128::MIN));
    assert_eq!(parse::<i128>(i128::MAX.to_string().as_bytes()), Ok(i128::MAX));
    assert_eq!(parse::<usize>(usize::MAX.to_string().as_bytes()), Ok(usize::MAX));
    assert_eq!(parse::<isize>(isize::MIN.to_string().as_bytes()), Ok(isize::MIN));
    assert_eq!(parse::<isize>(isize::MAX.to_string().as_bytes()), Ok(isize::MAX));
    assert!(parse::<usize>((usize::MAX as u128 + 1).to_string().as_bytes()).is_err());
    assert!(parse::<isize>((isize::MAX as i128 + 1).to_string().as_bytes()).is_err());
}

#[test]
fn roundtrip_samples() {
    for v in [0i64, 1, -1, 9, 10, 99, 100, 12345678, -87654321, 1234567890123456789, i64::MAX, i64::MIN] {
        let text = v.to_string();
        assert_eq!(parse::<i64>(text.as_bytes()), Ok(v));
        assert_eq!(parse_skipped::<i64>(text.as_bytes()), Ok(v));
        assert_eq!(parse_prefix::<i64>(text.as_bytes()), Ok((v, text.len())));
    }
    for v in [0u128, 7, 10_000_000_000_000_000, 123456789012345678901234567890, u128::MAX] {
        let text = v.to_string();
        assert_eq!(parse::<u128>(text.as_bytes()), Ok(v));
        assert_eq!(parse_prefix::<u128>(text.as_bytes()), Ok((v, text.len())));
    }
}

#[test]
fn leading_zeroes_are_skipped() {
    for k in 0..60 {
        let mut text = "0".repeat(k);
        text.push_str("4294967295");
        assert_eq!(parse_skipped::<u32>(text.as_bytes()), Ok(u32::MAX));
        assert_eq!(
            <u32 as Parse>::atoi_simd_parse_prefix::<true, false>(text.as_bytes()),
            Ok((u32::MAX, text.len()))
        );
    }
    assert_eq!(parse_skipped::<u8>(&[b'0'; 70]), Ok(0));
}

#[test]
fn prefix_stops_at_non_digit() {
    assert_eq!(parse_prefix::<u64>(b"123:456"), Ok((123, 3)));
    assert_eq!(parse_prefix::<u64>(b"123:99999999999999999999999"), Ok((123, 3)));
    assert_eq!(parse_prefix::<i16>(b"-321 12"), Ok((-321, 4)));
    assert_eq!(parse_prefix_pos::<u8>(b"7\0"), Ok((7, 1)));
    assert_eq!(parse_prefix_neg::<i32>(b"2147483648/"), Ok((i32::MIN, 10)));
    assert_eq!(parse_any::<u64>(b"42a"), parse_prefix::<u64>(b"42a"));
    assert_eq!(parse_any_pos::<u64>(b"42a"), parse_prefix_pos::<u64>(b"42a"));
    assert_eq!(parse_any_neg::<i64>(b"42a"), parse_prefix_neg::<i64>(b"42a"));
}

#[test]
fn plus_sign_is_counted() {
    assert_eq!(<u32 as Parse>::atoi_simd_parse_prefix::<false, true>(b"+12x"), Ok((12, 3)));
    assert_eq!(<i32 as Parse>::atoi_simd_parse_prefix::<false, true>(b"+12x"), Ok((12, 3)));
    assert_eq!(<i32 as Parse>::atoi_simd_parse_prefix::<false, false>(b"+12x"), Err(AtoiSimdError::Empty));
    assert_eq!(<i32 as Parse>::atoi_simd_parse::<false, true>(b"+12"), Ok(12));
}

#[test]
fn stray_byte_anywhere_is_refused() {
    let text = "1234567890123456789";
    for i in 0..=text.len() {
        let mut s = String::from(&text[..i]);
        s.push('x');
        s.push_str(&text[i..]);
        assert!(parse::<u64>(s.as_bytes()).is_err());
        assert!(parse::<i64>(s.as_bytes()).is_err());
        assert!(parse_skipped::<u128>(s.as_bytes()).is_err());
    }
}

#[test]
fn full_read_is_whole_prefix() {
    for s in [&b"-12"[..], b"12", b"12x", b"-", b"", b"99999"] {
        match parse::<i16>(s) {
            Ok(v) => assert_eq!(parse_prefix::<i16>(s), Ok((v, s.len()))),
            Err(_) => assert!(!matches!(parse_prefix::<i16>(s), Ok((_, n)) if n == s.len())),
        }
    }
}

#[test]
fn minus_negates() {
    assert_eq!(parse::<i32>(b"-1234"), parse_neg::<i32>(b"1234"));
    assert_eq!(parse::<i32>(b"1234"), parse_pos::<i32>(b"1234"));
    assert_eq!(parse::<i64>(b"-0"), Ok(0));
}

#[test]
fn words_and_digit_runs() {
    assert_eq!(load_8(b"12"), 0x3231);
    assert_eq!(load_8(b"123456789"), 0x3837_3635_3433_3231);
    assert_eq!(load_8(b""), 0);
    assert_eq!(check_len_8(load_8(b"1234x678")), 4);
    assert_eq!(check_len_8(load_8(b"12345678")), 8);
    assert_eq!(check_len_8(load_8(b"123")), 3);
    assert_eq!(check_len_8(load_8(b":")), 0);
    assert_eq!(len_zeroes(load_8(b"0001")), 3);
    assert_eq!(len_zeroes(load_8(b"00000000")), 8);
    assert_eq!(len_zeroes(load_8(b"00")), 2);
    assert_eq!(process_8(load_8(b"12345678"), 8), 12345678);
    assert_eq!(process_8(load_8(b"907"), 3), 907);
    assert_eq!(process_8(load_8(b"5"), 1), 5);
    let lo = load_8(b"12345678") as u128;
    let hi = load_8(b"90123456") as u128;
    assert_eq!(process_16((hi << 64) | lo, 16), 1234567890123456);
    assert_eq!(process_16((hi << 64) | lo, 10), 1234567890);
    assert_eq!(parse_16_by_8::<false>(b"12345678901234567890"), (1234567890123456, 16, 0));
    assert_eq!(parse_16_by_8::<false>(b"123456789x"), (123456789, 9, 0));
    assert_eq!(parse_16_by_8::<false>(b"7"), (7, 1, 0));
    assert_eq!(parse_16_by_8::<false>(b"x"), (0, 0, 0));
    assert_eq!(parse_16_by_8::<false>(b"0001234567890123"), (1234567890123, 16, 0));
    assert_eq!(parse_16_by_8::<true>(b"0001234567890123"), (1234567890123, 16, 3));
    assert_eq!(parse_16_by_8::<true>(b"0000000000120000"), (120000, 16, 10));
    assert_eq!(parse_16_by_8::<true>(b"00000000000000005"), (0, 16, 16));
    assert_eq!(parse_16_by_8::<true>(b"000123"), (123, 6, 0));
}

#[test]
fn magnitudes() {
    let wide = RunLimit::Digits { limit: 20, reported: 24 };
    assert_eq!(parse_simd::<false>(b"300", 255, RunLimit::Unlimited), Err(AtoiSimdError::Overflow(b"300")));
    assert_eq!(parse_simd::<false>(b"255 ", 255, RunLimit::Unlimited), Ok((255, 3)));
    assert_eq!(parse_simd::<false>(b"0000000000000000000000255", 255, RunLimit::Unlimited), Ok((255, 25)));
    assert_eq!(
        parse_simd::<false>(b"0000000000000000000000255", 255, wide),
        Err(AtoiSimdError::Size(24, b"0000000000000000000000255"))
    );
    assert_eq!(parse_simd::<true>(b"0000000000000000000000255", 255, wide), Ok((255, 25)));
    assert_eq!(parse_simd_checked_neg::<false>(b"128", 128, RunLimit::Unlimited), Ok(-128));
    assert_eq!(
        parse_simd_checked_neg::<false>(b"9223372036854775808", 1 << 63, wide),
        Ok(i64::MIN)
    );
}

#[test]
fn agrees_with_std_on_canonical_inputs() {
    let alphabet = [b'-', b'0', b'1', b'5', b'9', b'x', b'+'];
    let mut inputs: Vec<Vec<u8>> = vec![Vec::new()];
    let mut layer: Vec<Vec<u8>> = vec![Vec::new()];
    for _ in 0..5 {
        let mut next = Vec::new();
        for s in &layer {
            for &c in &alphabet {
                let mut t = s.clone();
                t.push(c);
                next.push(t);
            }
        }
        inputs.extend(next.iter().cloned());
        layer = next;
    }
    for s in &inputs {
        if let Some(&first) = s.first() {
            if first == b'0' || first == b'+' {
                continue;
            }
            if s.len() > 1 && s[1] == b'0' {
                continue;
            }
        }
        let text = core::str::from_utf8(s).unwrap();
        assert_eq!(parse::<i16>(s).ok(), text.parse::<i16>().ok(), "input: {}", text);
        assert_eq!(parse::<u8>(s).ok(), text.parse::<u8>().ok(), "input: {}", text);
        assert_eq!(parse::<i32>(s).ok(), text.parse::<i32>().ok(), "input: {}", text);
    }
}

fn sample_inputs() -> Vec<Vec<u8>> {
    let alphabet = [b'-', b'0', b'1', b'5', b'9', b'x', b'+'];
    let mut inputs: Vec<Vec<u8>> = vec![Vec::new()];
    let mut layer: Vec<Vec<u8>> = vec![Vec::new()];
    for _ in 0..4 {
        let mut next = Vec::new();
        for s in &layer {
            for &c in &alphabet {
                let mut t = s.clone();
                t.push(c);
                next.push(t);
            }
        }
        inputs.extend(next.iter().cloned());
        layer = next;
    }
    for sign in ["", "+", "-"] {
        for zeros in [0, 1, 15, 16, 17, 33, 40] {
            for digits in ["0", "7", "255", "256", "32768", "9223372036854775808", "18446744073709551616", "340282366920938463463374607431768211456", "1234567890123456789012345"] {
                let text = format!("{}{}{}", sign, "0".repeat(zeros), digits);
                inputs.push(text.into_bytes());
            }
        }
    }
    inputs
}

#[test]
fn parse_skipped_agrees_with_std() {
    for s in sample_inputs() {
        let text = core::str::from_utf8(&s).unwrap();
        assert_eq!(parse_skipped::<u8>(&s).ok(), text.parse::<u8>().ok(), "input: {}", text);
        assert_eq!(parse_skipped::<i16>(&s).ok(), text.parse::<i16>().ok(), "input: {}", text);
        assert_eq!(parse_skipped::<u32>(&s).ok(), text.parse::<u32>().ok(), "input: {}", text);
        assert_eq!(parse_skipped::<i64>(&s).ok(), text.parse::<i64>().ok(), "input: {}", text);
        assert_eq!(parse_skipped::<u64>(&s).ok(), text.parse::<u64>().ok(), "input: {}", text);
        assert_eq!(parse_skipped::<i128>(&s).ok(), text.parse::<i128>().ok(), "input: {}", text);
        assert_eq!(parse_skipped::<u128>(&s).ok(), text.parse::<u128>().ok(), "input: {}", text);
    }
}

#[test]
fn parse_agrees_with_std_without_leading_zeroes() {
    for s in sample_inputs() {
        let body = if s.first() == Some(&b'-') { &s[1..] } else { &s[..] };
        if s.first() == Some(&b'+') || (body.first() == Some(&b'0') && body.len() >= 16) {
            continue;
        }
        let text = core::str::from_utf8(&s).unwrap();
        assert_eq!(parse::<i64>(&s).ok(), text.parse::<i64>().ok(), "input: {}", text);
        assert_eq!(parse::<u128>(&s).ok(), text.parse::<u128>().ok(), "input: {}", text);
        assert_eq!(parse::<u8>(&s).ok(), text.parse::<u8>().ok(), "input: {}", text);
    }
}

#[test]
fn parse_skipped_accepts_what_parse_accepts() {
    for s in sample_inputs() {
        if let Ok(v) = parse::<i64>(&s) {
            assert_eq!(parse_skipped::<i64>(&s), Ok(v));
        }
        if let Ok(v) = parse::<u16>(&s) {
            assert_eq!(parse_skipped::<u16>(&s), Ok(v));
        }
        if let Ok(v) = parse::<i128>(&s) {
            assert_eq!(parse_skipped::<i128>(&s), Ok(v));
        }
    }
}

#[test]
fn zeroes_keep_validity() {
    for sign in ["", "+", "-"] {
        for digits in ["0", "7", "255", "256", "9223372036854775808", "18446744073709551615", "18446744073709551616"] {
            let plain = format!("{}{}", sign, digits);
            for zeros in [1, 15, 16, 17, 31, 32, 45] {
                let padded = format!("{}{}{}", sign, "0".repeat(zeros), digits);
                assert_eq!(parse_skipped::<u8>(padded.as_bytes()).ok(), parse_skipped::<u8>(plain.as_bytes()).ok());
                assert_eq!(parse_skipped::<i8>(padded.as_bytes()).ok(), parse_skipped::<i8>(plain.as_bytes()).ok());
                assert_eq!(parse_skipped::<u64>(padded.as_bytes()).ok(), parse_skipped::<u64>(plain.as_bytes()).ok());
                assert_eq!(parse_skipped::<i64>(padded.as_bytes()).ok(), parse_skipped::<i64>(plain.as_bytes()).ok());
                assert_eq!(parse_skipped::<u128>(padded.as_bytes()).ok(), parse_skipped::<u128>(plain.as_bytes()).ok());
            }
        }
    }
}
