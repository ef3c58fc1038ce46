use simd_string::pattern::SimdPattern;
use simd_string::simd_string::{SimdString as OwnedText, ToSimdString};
use simd_string::{FromSimdString, ParseIntError, SimdString};
use std::num::IntErrorKind;

fn kind_of(e: std::num::ParseIntError) -> ParseIntError {
    match e.kind() {
        IntErrorKind::Empty => ParseIntError::Empty,
        IntErrorKind::InvalidDigit => ParseIntError::InvalidDigit,
        IntErrorKind::PosOverflow => ParseIntError::PosOverflow,
        IntErrorKind::NegOverflow => ParseIntError::NegOverflow,
        _ => unreachable!(),
    }
}

/// Deterministic texts over a small alphabet that mixes one-, two- and
/// three-byte characters.
fn sample_texts() -> Vec<String> {
    let alphabet = ['@', '3', 'a', ' ', 'é', '€', '+'];
    let mut out = Vec::new();
    let mut state: u64 = 0x9e3779b97f4a7c15;
    for len in 0..70 {
        for _ in 0..6 {
            let mut s = String::new();
            for _ in 0..len {
                state ^= state << 13;
                state ^= state >> 7;
                state ^= state << 17;
                s.push(alphabet[(state % alphabet.len() as u64) as usize]);
            }
            out.push(s);
        }
    }
    out
}

#[test]
fn trim_char_agrees_with_std_on_samples() {
    for s in sample_texts() {
        for c in ['@', ' ', 'é', '€', 'x'] {
            for prefix_len in [0, 1, 15, 16, 17, 33] {
                let t: String = std::iter::repeat(c).take(prefix_len).collect::<String>() + &s;
                assert_eq!(t.trim_start_matches(c), t.simd_trim_start_matches_ch(c));
            }
        }
    }
}

#[test]
fn trim_str_agrees_with_std_on_samples() {
    for s in sample_texts() {
        for p in ["@3@", "é€", "a", "", "@@"] {
            for copies in [0, 1, 5, 6, 11] {
                let t = p.repeat(copies) + &s;
                assert_eq!(t.trim_start_matches(p), t.simd_trim_start_matches_str(p));
            }
        }
    }
}

#[test]
fn find_agrees_with_std_on_samples() {
    for s in sample_texts() {
        for c in ['@', 'é', '€', '+', 'z'] {
            assert_eq!(s.find(c), s.simd_find_ch(c));
        }
        for p in ["@3", "é€", "a a", "", "€€€", "3@a é", "zz"] {
            assert_eq!(s.find(p), s.simd_find_str(p));
        }
    }
}

#[test]
fn trim_stops_at_first_different_byte_in_a_block() {
    let s = String::from("@@X") + &"@".repeat(40);
    assert_eq!(s.simd_trim_start_matches_ch('@'), &s[2..]);
    let t = "@3@@3@@3X".to_string() + &"@3@".repeat(10);
    assert_eq!(t.simd_trim_start_matches_str("@3@"), &t[6..]);
}

#[test]
fn trim_removes_multibyte_characters() {
    let s = "éééééééééééééééééééxé";
    assert_eq!(s.simd_trim_start_matches_ch('é'), "xé");
    assert_eq!(s.simd_trim_start_matches_str("éé"), "éxé");
}

#[test]
fn trim_with_empty_pattern_keeps_everything() {
    let s = "                                   abc";
    assert_eq!(s.simd_trim_start_matches_str(""), s);
}

#[test]
fn trim_is_idempotent() {
    let s = "@3@@3@@3@@3@@3@@3@@3@@3@x@3@";
    let once = s.simd_trim_start_matches_str("@3@");
    assert_eq!(once, "x@3@");
    assert_eq!(once.simd_trim_start_matches_str("@3@"), once);
}

#[test]
fn trim_start_removes_only_spaces() {
    assert_eq!("   \tx".simd_trim_start(), "\tx");
    assert_eq!("".simd_trim_start(), "");
    assert_eq!(" ".repeat(40).simd_trim_start(), "");
}

#[test]
fn find_reports_byte_offsets() {
    assert_eq!("abé€x".simd_find_ch('€'), Some(4));
    assert_eq!("abé€x".simd_find_ch('x'), Some(7));
    assert_eq!("abé€x".simd_find_str("é€"), Some(2));
    assert_eq!("abc".simd_find_str(""), Some(0));
    assert_eq!("abc".simd_find_str("abcd"), None);
    let long = "x".repeat(31) + "needle";
    assert_eq!(long.simd_find_str("needle"), Some(31));
    assert_eq!(long.simd_find_ch('n'), Some(31));
    assert_eq!(long.simd_find_ch('q'), None);
}

#[test]
fn find_checks_every_candidate_in_a_block() {
    let s = "axxb".to_string() + "axb" + &"y".repeat(20) + "axb";
    assert_eq!(s.simd_find_str("axb"), Some(4));
}

fn check_parse<T>(s: &str)
where
    T: FromSimdString<Err = ParseIntError> + std::str::FromStr<Err = std::num::ParseIntError> + PartialEq
        + std::fmt::Debug,
{
    assert_eq!(s.parse::<T>().map_err(kind_of), s.simd_parse::<T>(), "text {:?}", s);
}

#[test]
fn parse_errors_of_each_kind() {
    assert_eq!("".simd_parse::<u64>(), Err(ParseIntError::Empty));
    assert_eq!("+".simd_parse::<u64>(), Err(ParseIntError::InvalidDigit));
    assert_eq!("-".simd_parse::<i64>(), Err(ParseIntError::InvalidDigit));
    assert_eq!("-5".simd_parse::<u32>(), Err(ParseIntError::InvalidDigit));
    assert_eq!("256".simd_parse::<u8>(), Err(ParseIntError::PosOverflow));
    assert_eq!("-129".simd_parse::<i8>(), Err(ParseIntError::NegOverflow));
    assert_eq!("12a".simd_parse::<i16>(), Err(ParseIntError::InvalidDigit));
}

#[test]
fn parse_values() {
    assert_eq!("+12".simd_parse::<u8>(), Ok(12));
    assert_eq!("-0".simd_parse::<i32>(), Ok(0));
    assert_eq!("-128".simd_parse::<i8>(), Ok(-128));
    assert_eq!("340282366920938463463374607431768211455".simd_parse::<u128>(), Ok(u128::MAX));
    assert_eq!("-170141183460469231731687303715884105728".simd_parse::<i128>(), Ok(i128::MIN));
    assert_eq!("0000000000000000000000000000000000000001".simd_parse::<u64>(), Ok(1));
}

#[test]
fn parse_agrees_with_std() {
    let texts = [
        "", "+", "-", "0", "-0", "+0", "7", "255", "256", "-128", "-129", "65535", "65536",
        "2147483647", "2147483648", "-2147483648", "-2147483649", "4294967295", "4294967296",
        "18446744073709551615", "18446744073709551616", "9223372036854775807",
        "-9223372036854775808", "-9223372036854775809", "99999999999999999999999999@",
        "9999999999999999@999999999999", "@", "12 ", " 12", "1_000", "١٢", "0000000000000000012",
        "340282366920938463463374607431768211455", "340282366920938463463374607431768211456",
        "-170141183460469231731687303715884105728", "-170141183460469231731687303715884105729",
        "170141183460469231731687303715884105727", "170141183460469231731687303715884105728",
        "+99999999999999999999999999999999999999999", "-1234567890123456789012345",
    ];
    for s in texts {
        check_parse::<u8>(s);
        check_parse::<u16>(s);
        check_parse::<u32>(s);
        check_parse::<u64>(s);
        check_parse::<u128>(s);
        check_parse::<usize>(s);
        check_parse::<i8>(s);
        check_parse::<i16>(s);
        check_parse::<i32>(s);
        check_parse::<i64>(s);
        check_parse::<i128>(s);
        check_parse::<isize>(s);
    }
}

#[test]
fn parse_reads_back_printed_numbers() {
    for n in [0u64, 1, 9, 10, 99, 12345678901234567, 10000000000000000, u64::MAX] {
        assert_eq!(n.to_string().simd_parse::<u64>(), Ok(n));
    }
    for n in [0i64, -1, 42, i64::MIN, i64::MAX, -10000000000000000] {
        assert_eq!(n.to_string().simd_parse::<i64>(), Ok(n));
    }
}

#[test]
fn owned_text_operations() {
    let t = OwnedText::new("        12345678".to_string());
    assert_eq!(t.trim_start(), "12345678");
    assert_eq!(t.trim_start_matches(' '), "12345678");
    let n = OwnedText::new("-000000000000042".to_string());
    assert_eq!(n.parse::<i32>(), Ok(-42));
    let m = "0000002147483648".to_simd_string();
    assert_eq!(m.parse::<i32>(), Err(ParseIntError::PosOverflow));
    let x = "xxxxxxxxxxxxxxxxxxxxxxyz".to_simd_string();
    assert_eq!(OwnedText::new("xxxxxxxxxxxxxxxxxxxxxxxyzzzzzzzz".to_string()).trim_start_matches('x'), "yzzzzzzzz");
    assert_eq!(x.parse::<i32>(), Err(ParseIntError::InvalidDigit));
}

#[test]
fn comparators_repeat_the_pattern() {
    let p = "abc";
    let comp = p.into_comparator(1);
    assert_eq!(&comp[..6], b"bcabca");
    assert_eq!(comp[15], b'b');
    let e = 'é'.into_comparator(0);
    assert_eq!(&e[..4], &[0xC3, 0xA9, 0xC3, 0xA9]);
    assert_eq!(b'z'.into_comparator(7), [b'z'; 16]);
    assert_eq!('€'.pattern_len(), 3);
    assert_eq!('€'.byte_at(2), 0xAC);
}

#[test]
fn parse_digit_strings_with_and_without_plus() {
    assert_eq!("+00000000000000000000123".simd_parse::<u64>(), Ok(123));
    assert_eq!("00000000000000000000123".simd_parse::<u64>(), Ok(123));
    assert_eq!("+99999999999999999999".simd_parse::<u64>(), Err(ParseIntError::PosOverflow));
    assert_eq!("-000000000000000000042".simd_parse::<i64>(), Ok(-42));
    assert_eq!("-99999999999999999999".simd_parse::<i64>(), Err(ParseIntError::NegOverflow));
    assert_eq!("-1".simd_parse::<u64>(), Err(ParseIntError::InvalidDigit));
    assert_eq!("-00000000000000000001".simd_parse::<u128>(), Err(ParseIntError::InvalidDigit));
    assert_eq!("12é".simd_parse::<u64>(), Err(ParseIntError::InvalidDigit));
    assert_eq!("١٢٣".simd_parse::<i32>(), Err(ParseIntError::InvalidDigit));
}

#[test]
fn owned_text_from_str() {
    let t = OwnedText::from("        00000042");
    assert_eq!(t.trim_start(), "00000042");
}
