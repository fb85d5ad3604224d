use atoi_simd::{parse, AtoiSimdError, Parse};

// Reads with and without skipping leading zeroes and a '+' must agree.
fn checked_parse<T: Parse + PartialEq + core::fmt::Debug>(s: &[u8]) -> Result<T, AtoiSimdError<'_>> {
    let res = parse::<T>(s);
    assert_eq!(res, T::atoi_simd_parse::<true, true>(s), "mismatch");
    res
}

#[test]
fn roundtrip_roundtrip_all_u8() {
    for i in u8::MIN..=u8::MAX {
        let text = i.to_string();
        let input = text.as_bytes();
        let parsed = checked_parse::<u8>(input).expect("Failed to parse valid input!");
        assert_eq!(i, parsed);
    }
}

#[test]
fn roundtrip_roundtrip_all_i8() {
    for i in i8::MIN..=i8::MAX {
        let text = i.to_string();
        let input = text.as_bytes();
        let parsed = checked_parse::<i8>(input).expect("Failed to parse valid input!");
        assert_eq!(i, parsed);
    }
}

#[test]
fn roundtrip_roundtrip_all_u16() {
    for i in u16::MIN..=u16::MAX {
        let text = i.to_string();
        let input = text.as_bytes();
        let parsed = checked_parse::<u16>(input).expect("Failed to parse valid input!");
        assert_eq!(i, parsed);
    }
}

#[test]
fn roundtrip_roundtrip_all_i16() {
    for i in i16::MIN..=i16::MAX {
        let text = i.to_string();
        let input = text.as_bytes();
        let parsed = checked_parse::<i16>(input).expect("Failed to parse valid input!");
        assert_eq!(i, parsed);
    }
}

#[test]
fn test_roundtrip_all_u8() {
    for i in u8::MIN..=u8::MAX {
        let text = i.to_string();
        let parsed = parse::<u8>(text.as_bytes()).expect("Failed to parse valid input!");
        assert_eq!(i, parsed);
    }
}

#[test]
fn test_roundtrip_all_i8() {
    for i in i8::MIN..=i8::MAX {
        let text = i.to_string();
        let parsed = parse::<i8>(text.as_bytes()).expect("Failed to parse valid input!");
        assert_eq!(i, parsed);
    }
}

#[test]
fn test_roundtrip_all_u16() {
    for i in u16::MIN..=u16::MAX {
        let text = i.to_string();
        let parsed = parse::<u16>(text.as_bytes()).expect("Failed to parse valid input!");
        assert_eq!(i, parsed);
    }
}

#[test]
fn test_roundtrip_all_i16() {
    for i in i16::MIN..=i16::MAX {
        let text = i.to_string();
        let parsed = parse::<i16>(text.as_bytes()).expect("Failed to parse valid input!");
        assert_eq!(i, parsed);
    }
}
