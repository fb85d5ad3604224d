use atoi_simd::fallback::check_len_8;
use atoi_simd::{parse_simd_checked_u128, parse_simd_u128};

#[test]
fn test_corner_cases() {
    assert_eq!(
        parse_simd_checked_u128::<32, true>(b"12345678901234567890123456789012").unwrap(),
        12345678901234567890123456789012
    );

    assert_eq!(
        parse_simd_u128::<32, true>(b"12345678901234567890123456789012s").unwrap(),
        (12345678901234567890123456789012, 32)
    );

    assert_eq!(
        parse_simd_checked_u128::<32, true>(b"123456789012345678901234567890123").unwrap(),
        123456789012345678901234567890123
    );
}

#[test]
fn test_check_len_8() {
    let data = [(0xFF30_3030_3030_3039, 7)];

    for (input, len) in data {
        let loaded_len = check_len_8(input);
        assert_eq!(loaded_len, len, "input: {:X?}", input);
    }
}
